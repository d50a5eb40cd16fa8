//! The documents that a resolution has at hand, by location.
use crate::document::{Document, Json};
use vstd::hash_map::StringHashMap;
use vstd::prelude::*;

verus! {

/// Documents by the location they were loaded from. An entry is never
/// removed, and what is read from the store is never changed through it.
pub struct DocumentStore {
    documents: StringHashMap<Document>,
}

impl View for DocumentStore {
    type V = Map<Seq<char>, Json>;

    closed spec fn view(&self) -> Map<Seq<char>, Json> {
        Map::new(
            |location: Seq<char>| self.documents@.contains_key(location),
            |location: Seq<char>| self.documents@[location]@,
        )
    }
}

impl DocumentStore {
    /// A store that holds nothing.
    pub fn new() -> (store: DocumentStore)
        ensures
            store@ == Map::<Seq<char>, Json>::empty(),
    {
        let store = DocumentStore { documents: StringHashMap::new() };
        assert(store@ =~= Map::<Seq<char>, Json>::empty());
        store
    }

    /// Whether a document is held for the location.
    pub fn contains(&self, location: &str) -> (held: bool)
        ensures
            held == self@.contains_key(location@),
    {
        self.documents.contains_key(location)
    }

    /// The document held for exactly this location.
    pub fn get(&self, location: &str) -> (found: Option<&Document>)
        ensures
            match found {
                Some(document) => self@.contains_key(location@) && self@[location@] == document@,
                None => !self@.contains_key(location@),
            },
    {
        self.documents.get(location)
    }

    /// Stores a document under a location that has none yet. Where the
    /// location has one, that one stays and `false` is returned.
    pub fn put(&mut self, location: &str, document: Document) -> (stored: bool)
        ensures
            stored == !old(self)@.contains_key(location@),
            final(self)@ == if stored {
                old(self)@.insert(location@, document@)
            } else {
                old(self)@
            },
    {
        if self.documents.contains_key(location) {
            false
        } else {
            self.documents.insert(location.to_owned(), document);
            assert(self@ =~= old(self)@.insert(location@, document@));
            true
        }
    }

    /// Stores a document under a location, in place of the one that the
    /// location may have: for the document that a resolution starts from.
    pub fn replace(&mut self, location: &str, document: Document)
        ensures
            final(self)@ == old(self)@.insert(location@, document@),
    {
        self.documents.insert(location.to_owned(), document);
        assert(self@ =~= old(self)@.insert(location@, document@));
    }
}

} // verus!
