//! Which sources are in the cache, and where.
use crate::config::{Source, SourceView};
use crate::path::PathBuf;
use crate::search::{first_where, lemma_first_where, lemma_first_where_is, lemma_first_where_none};
use vstd::prelude::*;

verus! {

/// An index into the cache directory. It is kept on disk, so that what one
/// invocation put into the cache is there for the next.
#[derive(Debug)]
pub struct CacheIndex {
    pub entries: Vec<CacheEntry>,
}

/// A source that is in the cache.
#[derive(Debug, PartialEq, Eq)]
pub struct CacheEntry {
    pub path: PathBuf,
    pub source: Source,
}

pub struct CacheEntryView {
    pub path: Seq<u8>,
    pub source: SourceView,
}

impl View for CacheEntry {
    type V = CacheEntryView;

    open spec fn view(&self) -> CacheEntryView {
        CacheEntryView { path: self.path@, source: self.source@ }
    }
}

impl View for CacheIndex {
    type V = Seq<CacheEntryView>;

    open spec fn view(&self) -> Seq<CacheEntryView> {
        self.entries@.map_values(|e: CacheEntry| e@)
    }
}

/// The first entry of the source, if it has one.
pub open spec fn lookup(entries: Seq<CacheEntryView>, source: SourceView) -> Option<CacheEntryView> {
    match first_where(entries, |e: CacheEntryView| e.source == source) {
        Some(i) => Some(entries[i]),
        None => None,
    }
}

/// No two entries are of the same source.
pub open spec fn one_entry_each(entries: Seq<CacheEntryView>) -> bool {
    forall|i: int, j: int|
        #![trigger entries[i], entries[j]]
        0 <= i < j < entries.len() ==> entries[i].source != entries[j].source
}

impl Clone for CacheEntry {
    fn clone(&self) -> (copy: Self)
        ensures
            copy@ == self@,
    {
        CacheEntry { path: self.path.clone(), source: self.source.clone() }
    }
}

impl Clone for CacheIndex {
    fn clone(&self) -> (copy: Self)
        ensures
            copy@ == self@,
    {
        let mut entries: Vec<CacheEntry> = Vec::new();
        let mut i: usize = 0;
        while i < self.entries.len()
            invariant
                i <= self.entries.len(),
                entries@.len() == i,
                forall|j: int| 0 <= j < i ==> (#[trigger] entries@[j])@ == self.entries@[j]@,
            decreases self.entries.len() - i,
        {
            entries.push(self.entries[i].clone());
            i = i + 1;
        }
        let copy = CacheIndex { entries };
        assert(copy@ =~= self@);
        copy
    }
}

impl Default for CacheIndex {
    fn default() -> (index: Self)
        ensures
            index@ == Seq::<CacheEntryView>::empty(),
    {
        let index = CacheIndex { entries: Vec::new() };
        assert(index@ =~= Seq::<CacheEntryView>::empty());
        index
    }
}

impl CacheIndex {
    /// The first entry of the source, if it has one.
    pub fn lookup_cached_source(&self, source: &Source) -> (found: Option<CacheEntry>)
        ensures
            match found {
                Some(entry) => lookup(self@, source@) == Some(entry@),
                None => lookup(self@, source@) is None,
            },
    {
        let ghost pred = |e: CacheEntryView| e.source == source@;
        let mut i: usize = 0;
        while i < self.entries.len()
            invariant
                i <= self.entries.len(),
                pred == (|e: CacheEntryView| e.source == source@),
                forall|j: int| 0 <= j < i ==> !pred(#[trigger] self@[j]),
            decreases self.entries.len() - i,
        {
            assert(self@[i as int] == self.entries@[i as int]@);
            if self.entries[i].source == *source {
                proof {
                    lemma_first_where_is(self@, pred, i as int);
                }
                return Some(self.entries[i].clone());
            }
            i = i + 1;
        }
        proof {
            lemma_first_where_none(self@, pred);
        }
        None
    }
}

/// What is found of a source is an entry of that source.
pub proof fn law_lookup_finds_the_source(entries: Seq<CacheEntryView>, source: SourceView)
    ensures
        lookup(entries, source) matches Some(entry) ==> entries.contains(entry) && entry.source
            == source,
        lookup(entries, source) is None <==> forall|i: int|
            0 <= i < entries.len() ==> (#[trigger] entries[i]).source != source,
{
    let pred = |e: CacheEntryView| e.source == source;
    lemma_first_where(entries, pred);
    match first_where(entries, pred) {
        Some(i) => {
            assert(pred(entries[i]));
            assert(entries.contains(entries[i]));
        },
        None => {
            assert forall|i: int| 0 <= i < entries.len() implies (#[trigger] entries[i]).source
                != source by {
                assert(!pred(entries[i]));
            }
        },
    }
}

/// A new entry changes what is found of no source that had one, and is found
/// where its source had none.
pub proof fn law_push_then_lookup(
    entries: Seq<CacheEntryView>,
    entry: CacheEntryView,
    source: SourceView,
)
    ensures
        lookup(entries.push(entry), source) == (match lookup(entries, source) {
            Some(found) => Some(found),
            None => if entry.source == source {
                Some(entry)
            } else {
                None
            },
        }),
{
    let pred = |e: CacheEntryView| e.source == source;
    lemma_first_where(entries, pred);
    assert(entries.push(entry).drop_last() =~= entries);
}

/// An entry of a source that had none keeps that there is one entry of each.
pub proof fn law_push_keeps_one_entry_each(entries: Seq<CacheEntryView>, entry: CacheEntryView)
    requires
        one_entry_each(entries),
        lookup(entries, entry.source) is None,
    ensures
        one_entry_each(entries.push(entry)),
{
    law_lookup_finds_the_source(entries, entry.source);
}

/// What is found of a source is the entry that stands ahead of all others of it, and
/// one is found wherever there is one.
pub proof fn law_lookup_finds_the_first_entry(
    entries: Seq<CacheEntryView>,
    source: SourceView,
    i: int,
)
    requires
        0 <= i < entries.len(),
        entries[i].source == source,
        forall|j: int| 0 <= j < i ==> (#[trigger] entries[j]).source != source,
    ensures
        lookup(entries, source) == Some(entries[i]),
{
    lemma_first_where_is(entries, |e: CacheEntryView| e.source == source, i);
}

/// An index says of each entry, in order, which source it is of and where that is.
pub proof fn law_indexes_say_where_sources_are(index: CacheIndex, i: int)
    ensures
        index@.len() == index.entries@.len(),
        0 <= i < index.entries@.len() ==> index@[i] == (CacheEntryView {
            path: index.entries@[i].path.bytes@,
            source: index.entries@[i].source@,
        }),
{
}

} // verus!
