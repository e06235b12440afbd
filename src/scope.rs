use vstd::prelude::*;

use crate::entry::{fields_view, level_name, opt_str_view, Entry, EntryView, Level};

verus! {

/// A child of an open span, in order of arrival.
pub enum Child {
    /// An event that occurred directly inside the span, already resolved.
    Event(Scope),
    /// Another span, still held in the registry under this identifier.
    Span(u64),
}

/// The mutable record of one open span (or of one event before it is resolved).
pub struct Scope {
    /// Creation time, in microseconds since the Unix epoch.
    pub stamp: u64,
    pub level: Level,
    pub name: String,
    /// Set once at creation.
    pub parent_id: Option<u64>,
    pub children: Vec<Child>,
    pub file: Option<String>,
    pub line: Option<u32>,
    /// Monotonic time, in microseconds, of the enter that is still open.
    pub start_time: Option<u64>,
    /// Accumulated active time, in microseconds.
    pub took: u128,
    /// Attributes in order of first recording; keys are unique.
    pub fields: Vec<(String, String)>,
}

/// No two fields share a key.
pub open spec fn keys_unique(f: Seq<(Seq<char>, Seq<char>)>) -> bool {
    forall|i: int, j: int| 0 <= i < j < f.len() ==> f[i].0 != f[j].0
}

/// `f` after recording `value` under `key`: an existing key keeps its place
/// and takes the new value, a new key is appended.
pub open spec fn field_insert(
    f: Seq<(Seq<char>, Seq<char>)>,
    key: Seq<char>,
    value: Seq<char>,
) -> Seq<(Seq<char>, Seq<char>)> {
    if exists|i: int| 0 <= i < f.len() && f[i].0 == key {
        let i = choose|i: int| 0 <= i < f.len() && f[i].0 == key;
        f.update(i, (key, value))
    } else {
        f.push((key, value))
    }
}

/// `i` is the first position that holds `key`.
pub open spec fn first_with_key(f: Seq<(Seq<char>, Seq<char>)>, key: Seq<char>, i: int) -> bool {
    &&& 0 <= i < f.len()
    &&& f[i].0 == key
    &&& forall|j: int| 0 <= j < i ==> f[j].0 != key
}

/// The snapshot value of a record whose children resolved to `kids`.
pub open spec fn entry_of(s: Scope, kids: Seq<EntryView>) -> EntryView {
    EntryView {
        stamp: s.stamp,
        level: level_name(s.level),
        name: s.name@,
        file: opt_str_view(s.file),
        line: s.line,
        took: s.took,
        fields: fields_view(s.fields@),
        children: kids,
    }
}

fn clone_opt_string(o: &Option<String>) -> (r: Option<String>)
    ensures
        opt_str_view(r) == opt_str_view(*o),
{
    match o {
        Some(s) => Some(s.clone()),
        None => None,
    }
}

fn clone_fields(f: &Vec<(String, String)>) -> (r: Vec<(String, String)>)
    ensures
        fields_view(r@) == fields_view(f@),
{
    let mut r: Vec<(String, String)> = Vec::new();
    let mut i: usize = 0;
    while i < f.len()
        invariant
            i <= f.len(),
            r@.len() == i,
            forall|j: int| 0 <= j < i ==> r@[j].0@ == f@[j].0@ && r@[j].1@ == f@[j].1@,
        decreases f.len() - i,
    {
        let k = f[i].0.clone();
        let v = f[i].1.clone();
        r.push((k, v));
        i = i + 1;
    }
    assert(fields_view(r@) =~= fields_view(f@));
    r
}

/// Records `value` under `key`; a later value for the same key replaces the
/// earlier one in place.
pub fn record_field(fields: &mut Vec<(String, String)>, key: String, value: String)
    requires
        keys_unique(fields_view(old(fields)@)),
    ensures
        fields_view(final(fields)@) == field_insert(fields_view(old(fields)@), key@, value@),
        keys_unique(fields_view(final(fields)@)),
{
    let ghost f0 = fields_view(fields@);
    let mut i: usize = 0;
    while i < fields.len()
        invariant
            i <= fields.len(),
            fields@ == old(fields)@,
            f0 == fields_view(fields@),
            keys_unique(f0),
            forall|j: int| 0 <= j < i ==> f0[j].0 != key@,
        decreases fields.len() - i,
    {
        assert(f0[i as int] == (fields@[i as int].0@, fields@[i as int].1@));
        if fields[i].0 == key {
            fields.set(i, (key, value));
            proof {
                assert(f0[i as int].0 == key@);
                let w = choose|j: int| 0 <= j < f0.len() && f0[j].0 == key@;
                if w > i as int {
                    assert(f0[i as int].0 != f0[w].0);
                }
                assert(fields_view(fields@) =~= f0.update(i as int, (key@, value@)));
            }
            return;
        }
        i = i + 1;
    }
    fields.push((key, value));
    assert(fields_view(fields@) =~= f0.push((key@, value@)));
}

/// Looks up the value recorded under `key`, at its first position.
pub fn find_field<'a>(fields: &'a Vec<(String, String)>, key: &str) -> (r: Option<&'a String>)
    ensures
        match r {
            Some(v) => exists|i: int|
                first_with_key(fields_view(fields@), key@, i) && fields@[i].1 == *v,
            None => forall|i: int|
                0 <= i < fields@.len() ==> #[trigger] fields@[i].0@ != key@,
        },
{
    let ghost f = fields_view(fields@);
    let k = key.to_owned();
    let mut i: usize = 0;
    while i < fields.len()
        invariant
            i <= fields.len(),
            f == fields_view(fields@),
            k@ == key@,
            forall|j: int| 0 <= j < i ==> #[trigger] fields@[j].0@ != key@,
        decreases fields.len() - i,
    {
        assert(f[i as int] == (fields@[i as int].0@, fields@[i as int].1@));
        if fields[i].0 == k {
            assert(first_with_key(f, key@, i as int));
            return Some(&fields[i].1);
        }
        i = i + 1;
    }
    None
}

impl Scope {
    /// A fresh record: no children, not active, nothing accumulated, no fields.
    pub fn new(
        level: Level,
        name: String,
        parent_id: Option<u64>,
        file: Option<String>,
        line: Option<u32>,
        stamp: u64,
    ) -> (r: Scope)
        ensures
            r.stamp == stamp,
            r.level == level,
            r.name == name,
            r.parent_id == parent_id,
            r.children@.len() == 0,
            r.file == file,
            r.line == line,
            r.start_time is None,
            r.took == 0,
            r.fields@.len() == 0,
    {
        Scope {
            stamp,
            level,
            name,
            parent_id,
            children: Vec::new(),
            file,
            line,
            start_time: None,
            took: 0,
            fields: Vec::new(),
        }
    }

    /// Records one attribute, last write wins.
    pub fn record_field(&mut self, key: String, value: String)
        requires
            keys_unique(fields_view(old(self).fields@)),
        ensures
            fields_view(final(self).fields@) == field_insert(
                fields_view(old(self).fields@),
                key@,
                value@,
            ),
            keys_unique(fields_view(final(self).fields@)),
            final(self).stamp == old(self).stamp,
            final(self).level == old(self).level,
            final(self).name == old(self).name,
            final(self).parent_id == old(self).parent_id,
            final(self).children == old(self).children,
            final(self).file == old(self).file,
            final(self).line == old(self).line,
            final(self).start_time == old(self).start_time,
            final(self).took == old(self).took,
    {
        record_field(&mut self.fields, key, value);
    }

    /// The record's own values as a snapshot node, without children.
    pub fn to_entry(&self) -> (r: Entry)
        ensures
            r@ == entry_of(*self, Seq::empty()),
    {
        let r = Entry {
            stamp: self.stamp,
            level: self.level.as_str().to_string(),
            name: self.name.clone(),
            file: clone_opt_string(&self.file),
            line: self.line,
            took: self.took,
            fields: clone_fields(&self.fields),
            children: Vec::new(),
        };
        assert(r.children@.len() == 0);
        assert(r@.children =~= Seq::<EntryView>::empty());
        assert(r@.level == level_name(self.level));
        assert(r@ =~= entry_of(*self, Seq::empty()));
        r
    }
}

} // verus!
