use vstd::prelude::*;
use vstd::string::StringExecFns;
use crate::text::{decimal, push_decimal};

verus! {

/// One interval recorded by the device: the cube lay on `facet` (a zero-based
/// face index) from `time` (seconds since the Unix epoch, UTC) for `duration`
/// seconds.
#[derive(Clone, Copy, Debug, PartialEq, Eq, Structural)]
pub struct Entry {
    pub id: u32,
    pub facet: u8,
    pub time: i64,
    pub duration: u32,
}

/// Ids ascend strictly, so that each id occurs at most once.
pub open spec fn strictly_ascending(s: Seq<Entry>) -> bool {
    forall|i: int, j: int| 0 <= i < j < s.len() ==> s[i].id < s[j].id
}

/// Some entry of `s` carries `id`.
pub open spec fn has_id(s: Seq<Entry>, id: u32) -> bool {
    exists|i: int| 0 <= i < s.len() && s[i].id == id
}

/// The end of an entry's interval fits the timestamp type.
pub open spec fn end_fits(e: Entry) -> bool {
    e.time + e.duration <= i64::MAX
}

/// An entry in the form a user edits: the facet by its label, the interval by
/// its two ends, and a free-text description.
#[derive(Debug)]
pub struct EntryEdit {
    pub id: u32,
    pub facet: String,
    pub start_time: i64,
    pub end_time: i64,
    pub description: String,
}

/// What an [`EntryEdit`] holds, with its texts as character sequences.
pub struct EntryEditView {
    pub id: u32,
    pub facet: Seq<char>,
    pub start_time: i64,
    pub end_time: i64,
    pub description: Seq<char>,
}

impl View for EntryEdit {
    type V = EntryEditView;

    open spec fn view(&self) -> EntryEditView {
        EntryEditView {
            id: self.id,
            facet: self.facet@,
            start_time: self.start_time,
            end_time: self.end_time,
            description: self.description@,
        }
    }
}

/// The views of a sequence of edit entries.
pub open spec fn edit_views(s: Seq<EntryEdit>) -> Seq<EntryEditView> {
    s.map_values(|e: EntryEdit| e@)
}

/// Ids of edit entries ascend strictly.
pub open spec fn edits_ascending(s: Seq<EntryEditView>) -> bool {
    forall|i: int, j: int| 0 <= i < j < s.len() ==> s[i].id < s[j].id
}

/// Display names of the facets, by zero-based facet index; a facet may have none.
pub struct FacetConfig {
    pub names: Vec<Option<String>>,
}

/// The names of a facet configuration, as character sequences.
pub open spec fn names_view(names: Seq<Option<String>>) -> Seq<Option<Seq<char>>> {
    names.map_values(|n: Option<String>| match n {
        Some(t) => Some(t@),
        None => None,
    })
}

impl View for FacetConfig {
    type V = Seq<Option<Seq<char>>>;

    open spec fn view(&self) -> Seq<Option<Seq<char>>> {
        names_view(self.names@)
    }
}

/// The label of a facet that has no configured name: "facet " and its
/// one-based number.
pub open spec fn default_label(facet: u8) -> Seq<char> {
    seq!['f', 'a', 'c', 'e', 't', ' '] + decimal(facet as nat + 1)
}

/// The label shown for `facet`: its configured name, else the default label.
pub open spec fn facet_label(facet: u8, names: Seq<Option<Seq<char>>>) -> Seq<char> {
    if (facet as int) < names.len() && names[facet as int] is Some {
        names[facet as int]->Some_0
    } else {
        default_label(facet)
    }
}

/// The edit form of `e`, with its facet labelled through `names` and an empty
/// description.
pub open spec fn edit_of(e: Entry, names: Seq<Option<Seq<char>>>) -> EntryEditView {
    EntryEditView {
        id: e.id,
        facet: facet_label(e.facet, names),
        start_time: e.time,
        end_time: (e.time + e.duration) as i64,
        description: Seq::empty(),
    }
}

/// The label of `facet` under `config`: its configured name, else "facet"
/// followed by its one-based number.
pub fn facet_name(facet: u8, config: &FacetConfig) -> (r: String)
    ensures
        r@ == facet_label(facet, config@),
{
    let i = facet as usize;
    if i < config.names.len() {
        match &config.names[i] {
            Some(name) => {
                return name.clone();
            },
            None => {},
        }
    }
    proof {
        reveal_strlit("facet ");
    }
    let mut label = String::from_str("facet ");
    push_decimal(&mut label, facet as u64 + 1);
    label
}

impl EntryEdit {
    /// The edit form of `entry`, its facet labelled through `config`, with an
    /// empty description.
    pub fn from_entry_with_config(entry: &Entry, config: &FacetConfig) -> (r: EntryEdit)
        requires
            end_fits(*entry),
        ensures
            r@ == edit_of(*entry, config@),
    {
        EntryEdit {
            id: entry.id,
            facet: facet_name(entry.facet, config),
            start_time: entry.time,
            end_time: entry.time + entry.duration as i64,
            description: String::new(),
        }
    }

    /// The edit form of `entry` with the default label of its facet.
    pub fn from_entry(entry: &Entry) -> (r: EntryEdit)
        requires
            end_fits(*entry),
        ensures
            r@ == edit_of(*entry, Seq::empty()),
    {
        let none = FacetConfig { names: Vec::new() };
        Self::from_entry_with_config(entry, &none)
    }

    /// A copy of this entry.
    pub fn duplicate(&self) -> (r: EntryEdit)
        ensures
            r@ == self@,
    {
        EntryEdit {
            id: self.id,
            facet: self.facet.clone(),
            start_time: self.start_time,
            end_time: self.end_time,
            description: self.description.clone(),
        }
    }
}

} // verus!
