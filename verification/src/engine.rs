//! The engine that resolves documents.
use crate::document::{find_member, items_view, members_view, Document, Json};
use crate::error::Error;
use crate::laws::{lemma_fetch_only_missing, lemma_resolved_well_formed, store_well_formed};
use crate::reference::{fetch_for, locate, request_location, Fetch, Target};
use crate::resolution::{
    expand, lemma_items_stop, lemma_members_stop, resolve, resolve_children, resolve_items,
    resolve_members, substitute, text_member, Setting, Stop,
};
use crate::store::DocumentStore;
use crate::text::{chars_of, texts};
use crate::uri::{url_without_fragment, without_fragment};
use vstd::prelude::*;

verus! {

/// Why a resolution stopped before it was complete.
#[derive(Debug, PartialEq, Eq)]
pub enum Halt {
    /// A document is needed that the store does not hold.
    Fetch(Fetch),
    /// The resolution failed.
    Error(Error),
}

impl View for Halt {
    type V = Stop;

    open spec fn view(&self) -> Stop {
        match self {
            Halt::Fetch(fetch) => Stop::Fetch(fetch@),
            Halt::Error(error) => Stop::Error(error@),
        }
    }
}

/// The model of what a resolution returned.
pub open spec fn outcome(result: Result<Document, Halt>) -> Result<Json, Stop> {
    match result {
        Ok(document) => Ok(document@),
        Err(halt) => Err(halt@),
    }
}

/// The model of an optional string.
pub open spec fn optional_text(text: Option<String>) -> Option<Seq<char>> {
    match text {
        Some(t) => Some(t@),
        None => None,
    }
}

/// The first of the members with the given key, if it holds a string: its
/// index and the string.
fn text_member_of<'a>(members: &'a Vec<(String, Document)>, key: &str) -> (found: Option<
    (usize, &'a String),
>)
    ensures
        match found {
            Some((index, text)) => index < members.len() && text_member(
                Json::Object(members_view(members@)),
                key@,
            ) == Some((index as int, text@)),
            None => text_member(Json::Object(members_view(members@)), key@) is None,
        },
{
    let key_chars = chars_of(key);
    match find_member(members, &key_chars) {
        Some(index) => {
            assert(members_view(members@)[index as int].1 == members[index as int].1@);
            match &members[index].1 {
                Document::String(text) => Some((index, text)),
                _ => None,
            }
        },
        None => None,
    }
}

/// An object of the given members without the one at `index`.
fn without(members: &Vec<(String, Document)>, index: usize) -> (rest: Document)
    requires
        index < members.len(),
    ensures
        rest@ == Json::Object(members_view(members@).remove(index as int)),
{
    let ghost wanted = members_view(members@).remove(index as int);
    let mut kept: Vec<(String, Document)> = Vec::new();
    let mut i: usize = 0;
    while i < members.len()
        invariant
            index < members.len(),
            i <= members.len(),
            wanted == members_view(members@).remove(index as int),
            kept.len() == if i <= index {
                i as int
            } else {
                i - 1
            },
            forall|j: int| 0 <= j < kept.len() ==> members_view(kept@)[j] == wanted[j],
        decreases members.len() - i,
    {
        if i != index {
            let member = (members[i].0.clone(), members[i].1.duplicate());
            assert((member.0@, member.1@) == members_view(members@)[i as int]);
            kept.push(member);
        }
        i = i + 1;
    }
    assert(members_view(kept@) =~= wanted);
    Document::Object(kept)
}

/// The node that takes the place of one that held a reference.
fn substituted(content: Document, rest: Document, wrapper: &Option<String>) -> (node: Document)
    ensures
        node@ == substitute(content@, rest@, optional_text(*wrapper)),
{
    match wrapper {
        None => content,
        Some(key) => match content {
            Document::Object(mut members) => {
                let ghost before = members_view(members@);
                let key_chars = chars_of(key.as_str());
                match find_member(&members, &key_chars) {
                    Some(index) => {
                        members.set(index, (key.clone(), rest));
                        assert(members_view(members@) =~= before.update(
                            index as int,
                            (key@, rest@),
                        ));
                    },
                    None => {
                        members.push((key.clone(), rest));
                        assert(members_view(members@) =~= before.push((key@, rest@)));
                    },
                }
                Document::Object(members)
            },
            other => other,
        },
    }
}

/// Whether a URL is among those being expanded.
fn is_used(used: &Vec<String>, url: &String) -> (found: bool)
    ensures
        found == texts(used@).contains(url@),
{
    let mut i: usize = 0;
    while i < used.len()
        invariant
            i <= used.len(),
            forall|j: int| 0 <= j < i ==> texts(used@)[j] != url@,
        decreases used.len() - i,
    {
        if used[i] == *url {
            assert(texts(used@)[i as int] == url@);
            return true;
        }
        i = i + 1;
    }
    false
}

/// The URLs being expanded, and one more.
fn extended(used: &Vec<String>, url: &String) -> (longer: Vec<String>)
    ensures
        texts(longer@) == texts(used@).push(url@),
{
    let mut longer: Vec<String> = Vec::new();
    let mut i: usize = 0;
    while i < used.len()
        invariant
            i <= used.len(),
            longer.len() == i,
            forall|j: int| 0 <= j < i ==> longer[j]@ == used[j]@,
        decreases used.len() - i,
    {
        longer.push(used[i].clone());
        i = i + 1;
    }
    longer.push(url.clone());
    assert(texts(longer@) =~= texts(used@).push(url@));
    longer
}

/// How far a call has brought a document.
#[derive(Debug, PartialEq, Eq)]
pub enum Progress {
    /// The document is resolved.
    Complete,
    /// The document is as it was: a document is needed that the engine does
    /// not hold. Once it has been supplied, the call can be made again.
    Fetch(Fetch),
}

/// The location under which the document that a resolution starts from is
/// held: the location that a reference into the document itself leads to,
/// which is the base as a URL without its fragment. A base that is no URL
/// stands as it is; no reference can be read against it.
pub open spec fn entry_location(base: Seq<char>) -> Seq<char> {
    match url_without_fragment(base) {
        Ok(location) => location,
        Err(_) => base,
    }
}

/// The setting of a resolution that starts from `document`: the document is
/// at hand under `location`, in place of what was there.
pub open spec fn seeded(setting: Setting, location: Seq<char>, document: Json) -> Setting {
    Setting { store: setting.store.insert(location, document), wrapper: setting.wrapper }
}

/// The base of a document that has no location of its own, for a working
/// directory.
pub open spec fn anonymous_base(directory: Seq<char>) -> Seq<char> {
    "file://"@ + directory + "/anon.json"@
}

/// The base of the document in the file at an absolute path.
pub open spec fn file_base(path: Seq<char>) -> Seq<char> {
    "file://"@ + path
}

/// What a call that resolves `before` in `setting` returns and leaves in
/// the document, `after`.
pub open spec fn dereferenced(
    before: Document,
    base: Seq<char>,
    setting: Setting,
    limit: nat,
    after: Document,
    result: Result<Progress, Error>,
) -> bool {
    match resolve(before@, base, Seq::empty(), setting, limit) {
        Ok(resolved) => result matches Ok(Progress::Complete) && after@ == resolved,
        Err(Stop::Fetch(request)) => result matches Ok(Progress::Fetch(fetch)) && fetch@ == request
            && after == before,
        Err(Stop::Error(failure)) => result matches Err(error) && error@ == failure && after
            == before,
    }
}

/// How many expansions of references may nest unless another limit is set.
pub const DEFAULT_NESTING_LIMIT: usize = 128;

/// Resolves the references of documents. It keeps the documents that it was
/// given, by location, from one resolution to the next.
pub struct JsonRef {
    schema_cache: DocumentStore,
    reference_key: Option<String>,
    nesting_limit: usize,
}

impl JsonRef {
    /// The documents at hand and the wrapper key.
    pub closed spec fn setting(&self) -> Setting {
        Setting { store: self.schema_cache@, wrapper: optional_text(self.reference_key) }
    }

    /// How many expansions of references may nest.
    pub closed spec fn limit(&self) -> nat {
        self.nesting_limit as nat
    }

    /// An engine that holds no document and keeps nothing of the nodes that
    /// held a reference.
    pub fn new() -> (engine: JsonRef)
        ensures
            engine.setting() == (Setting { store: Map::empty(), wrapper: None }),
            engine.limit() == DEFAULT_NESTING_LIMIT,
    {
        JsonRef {
            schema_cache: DocumentStore::new(),
            reference_key: None,
            nesting_limit: DEFAULT_NESTING_LIMIT,
        }
    }

    /// Sets the key under which a node that held a reference keeps its
    /// other members.
    pub fn set_reference_key(&mut self, reference_key: &str)
        ensures
            final(self).setting() == (Setting {
                store: old(self).setting().store,
                wrapper: Some(reference_key@),
            }),
            final(self).limit() == old(self).limit(),
    {
        self.reference_key = Some(reference_key.to_owned());
    }

    /// Sets how many expansions of references may nest.
    pub fn set_nesting_limit(&mut self, limit: usize)
        ensures
            final(self).setting() == old(self).setting(),
            final(self).limit() == limit,
    {
        self.nesting_limit = limit;
    }

    /// Hands the engine the document of a location. A location that has a
    /// document keeps it, and `false` is returned.
    pub fn supply(&mut self, location: &str, document: Document) -> (stored: bool)
        ensures
            stored == !old(self).setting().store.contains_key(location@),
            final(self).setting().wrapper == old(self).setting().wrapper,
            final(self).setting().store == if stored {
                old(self).setting().store.insert(location@, document@)
            } else {
                old(self).setting().store
            },
            final(self).limit() == old(self).limit(),
    {
        self.schema_cache.put(location, document)
    }

    /// The document that the engine holds for a location.
    pub fn document(&self, location: &str) -> (found: Option<&Document>)
        ensures
            match found {
                Some(document) => self.setting().store.contains_key(location@)
                    && self.setting().store[location@] == document@,
                None => !self.setting().store.contains_key(location@),
            },
    {
        self.schema_cache.get(location)
    }

    /// Resolves the document `value`, whose location is `base`, in place.
    /// The document as it was is kept for the references into it, under the
    /// location that they lead to.
    pub fn deref_from(&mut self, value: &mut Document, base: &str) -> (result: Result<
        Progress,
        Error,
    >)
        ensures
            final(self).setting() == seeded(
                old(self).setting(),
                entry_location(base@),
                old(value)@,
            ),
            final(self).limit() == old(self).limit(),
            dereferenced(
                *old(value),
                base@,
                final(self).setting(),
                final(self).limit(),
                *final(value),
                result,
            ),
            result matches Ok(Progress::Fetch(fetch)) ==> !final(self).setting().store.contains_key(
                request_location(fetch@),
            ),
            old(value)@.well_formed() && store_well_formed(old(self).setting().store)
                ==> final(value)@.well_formed() && store_well_formed(
                final(self).setting().store,
            ),
    {
        match without_fragment(base) {
            Ok(location) => self.schema_cache.replace(location.as_str(), value.duplicate()),
            Err(_) => self.schema_cache.replace(base, value.duplicate()),
        }
        let used: Vec<String> = Vec::new();
        assert(texts(used@) =~= Seq::<Seq<char>>::empty());
        proof {
            lemma_fetch_only_missing(
                value@,
                base@,
                Seq::empty(),
                self.setting(),
                self.nesting_limit as nat,
            );
            if value@.well_formed() && store_well_formed(old(self).setting().store) {
                lemma_resolved_well_formed(
                    value@,
                    base@,
                    Seq::empty(),
                    self.setting(),
                    self.nesting_limit as nat,
                );
            }
        }
        match self.resolve(value, base, &used, self.nesting_limit) {
            Ok(resolved) => {
                *value = resolved;
                Ok(Progress::Complete)
            },
            Err(Halt::Fetch(fetch)) => Ok(Progress::Fetch(fetch)),
            Err(Halt::Error(error)) => Err(error),
        }
    }

    /// Resolves in place a document that has no location of its own.
    /// References are read against `anon.json` in `directory`, the working
    /// directory.
    pub fn deref_value(&mut self, value: &mut Document, directory: &str) -> (result: Result<
        Progress,
        Error,
    >)
        ensures
            final(self).setting() == seeded(
                old(self).setting(),
                entry_location(anonymous_base(directory@)),
                old(value)@,
            ),
            final(self).limit() == old(self).limit(),
            dereferenced(
                *old(value),
                anonymous_base(directory@),
                final(self).setting(),
                final(self).limit(),
                *final(value),
                result,
            ),
            result matches Ok(Progress::Fetch(fetch)) ==> !final(self).setting().store.contains_key(
                request_location(fetch@),
            ),
            old(value)@.well_formed() && store_well_formed(old(self).setting().store)
                ==> final(value)@.well_formed() && store_well_formed(
                final(self).setting().store,
            ),
    {
        let mut base = String::from_str("file://");
        base.append(directory);
        base.append("/anon.json");
        self.deref_from(value, base.as_str())
    }

    /// Resolves in place the document `value` that was fetched from `url`.
    pub fn deref_url(&mut self, url: &str, value: &mut Document) -> (result: Result<
        Progress,
        Error,
    >)
        ensures
            final(self).setting() == seeded(
                old(self).setting(),
                entry_location(url@),
                old(value)@,
            ),
            final(self).limit() == old(self).limit(),
            dereferenced(
                *old(value),
                url@,
                final(self).setting(),
                final(self).limit(),
                *final(value),
                result,
            ),
            result matches Ok(Progress::Fetch(fetch)) ==> !final(self).setting().store.contains_key(
                request_location(fetch@),
            ),
            old(value)@.well_formed() && store_well_formed(old(self).setting().store)
                ==> final(value)@.well_formed() && store_well_formed(
                final(self).setting().store,
            ),
    {
        self.deref_from(value, url)
    }

    /// Resolves in place the document `value` that was read from the file
    /// at `path`, an absolute path.
    pub fn deref_file(&mut self, path: &str, value: &mut Document) -> (result: Result<
        Progress,
        Error,
    >)
        ensures
            final(self).setting() == seeded(
                old(self).setting(),
                entry_location(file_base(path@)),
                old(value)@,
            ),
            final(self).limit() == old(self).limit(),
            dereferenced(
                *old(value),
                file_base(path@),
                final(self).setting(),
                final(self).limit(),
                *final(value),
                result,
            ),
            result matches Ok(Progress::Fetch(fetch)) ==> !final(self).setting().store.contains_key(
                request_location(fetch@),
            ),
            old(value)@.well_formed() && store_well_formed(old(self).setting().store)
                ==> final(value)@.well_formed() && store_well_formed(
                final(self).setting().store,
            ),
    {
        let mut base = String::from_str("file://");
        base.append(path);
        self.deref_from(value, base.as_str())
    }

    /// Resolves a node against a base, with `used` the references that are
    /// being expanded around it and `depth` the number of expansions that
    /// may still nest. The node itself is left as it is.
    pub fn resolve(&self, node: &Document, base: &str, used: &Vec<String>, depth: usize) -> (result:
        Result<Document, Halt>)
        ensures
            outcome(result) == resolve(node@, base@, texts(used@), self.setting(), depth as nat),
        decreases depth, node, 2nat,
    {
        match node {
            Document::Object(members) => {
                assert(node@ == Json::Object(members_view(members@)));
                let here: &str = match text_member_of(members, "$id") {
                    Some((_, id)) => id.as_str(),
                    None => base,
                };
                match text_member_of(members, "$ref") {
                    None => self.resolve_children(node, here, used, depth),
                    Some((index, reference)) => match locate(here, reference.as_str()) {
                        Err(error) => Err(Halt::Error(error)),
                        Ok(target) => self.expand(
                            members,
                            index,
                            reference.as_str(),
                            &target,
                            here,
                            used,
                            depth,
                        ),
                    },
                }
            },
            _ => self.resolve_children(node, base, used, depth),
        }
    }

    /// Resolves an object whose member at `index` is the reference
    /// `reference`, which leads to `target`; `here` is the base of the
    /// object.
    pub fn expand(
        &self,
        members: &Vec<(String, Document)>,
        index: usize,
        reference: &str,
        target: &Target,
        here: &str,
        used: &Vec<String>,
        depth: usize,
    ) -> (result: Result<Document, Halt>)
        requires
            index < members.len(),
        ensures
            outcome(result) == expand(
                Json::Object(members_view(members@)),
                index as int,
                reference@,
                target@,
                here@,
                texts(used@),
                self.setting(),
                depth as nat,
            ),
        decreases depth, members, 1nat,
    {
        let rest = without(members, index);
        if is_used(used, &target.url) {
            return Ok(rest);
        }
        let document = match self.schema_cache.get(target.location.as_str()) {
            Some(document) => document,
            None => {
                return match fetch_for(target.location.as_str()) {
                    Ok(fetch) => Err(Halt::Fetch(fetch)),
                    Err(error) => Err(Halt::Error(error)),
                };
            },
        };
        let content = match &target.fragment {
            None => document,
            Some(pointer) => match document.pointer(pointer.as_str()) {
                Some(content) => content,
                None => {
                    return Err(
                        Halt::Error(
                            Error::JsonPointerNotFound {
                                reference: reference.to_owned(),
                                pointer: pointer.clone(),
                            },
                        ),
                    );
                },
            },
        };
        if depth == 0 {
            return Err(Halt::Error(Error::NestingLimit { reference: reference.to_owned() }));
        }
        let longer = extended(used, &target.url);
        match self.resolve(content, target.location.as_str(), &longer, depth - 1) {
            Err(halt) => Err(halt),
            Ok(resolved) => {
                let replaced = substituted(resolved, rest, &self.reference_key);
                self.resolve_children(&replaced, here, used, depth - 1)
            },
        }
    }

    /// Resolves each child of a node against `base`, in order.
    pub fn resolve_children(
        &self,
        node: &Document,
        base: &str,
        used: &Vec<String>,
        depth: usize,
    ) -> (result: Result<Document, Halt>)
        ensures
            outcome(result) == resolve_children(
                node@,
                base@,
                texts(used@),
                self.setting(),
                depth as nat,
            ),
        decreases depth, node, 1nat,
    {
        match node {
            Document::Array(items) => {
                let ghost all = items_view(items@);
                let mut resolved: Vec<Document> = Vec::new();
                let mut i: usize = 0;
                assert(node@ == Json::Array(all));
                assert(items_view(resolved@) =~= all.take(0));
                while i < items.len()
                    invariant
                        decreases_to!(node => items),
                        all == items_view(items@),
                        node@ == Json::Array(all),
                        i <= items.len(),
                        resolve_items(
                            all.take(i as int),
                            base@,
                            texts(used@),
                            self.setting(),
                            depth as nat,
                        ) == Ok::<Seq<Json>, Stop>(items_view(resolved@)),
                    decreases items.len() - i,
                {
                    assert(decreases_to!(items => items@[i as int]));
                    assert(all.take(i + 1).drop_last() == all.take(i as int));
                    assert(all.take(i + 1).last() == items[i as int]@);
                    match self.resolve(&items[i], base, used, depth) {
                        Err(halt) => {
                            proof {
                                lemma_items_stop(
                                    all,
                                    i + 1,
                                    base@,
                                    texts(used@),
                                    self.setting(),
                                    depth as nat,
                                );
                            }
                            return Err(halt);
                        },
                        Ok(item) => {
                            let ghost before = items_view(resolved@);
                            resolved.push(item);
                            assert(items_view(resolved@) =~= before.push(item@));
                        },
                    }
                    i = i + 1;
                }
                assert(all.take(i as int) == all);
                Ok(Document::Array(resolved))
            },
            Document::Object(members) => {
                let ghost all = members_view(members@);
                let mut resolved: Vec<(String, Document)> = Vec::new();
                let mut i: usize = 0;
                assert(node@ == Json::Object(all));
                assert(members_view(resolved@) =~= all.take(0));
                while i < members.len()
                    invariant
                        decreases_to!(node => members),
                        all == members_view(members@),
                        node@ == Json::Object(all),
                        i <= members.len(),
                        resolve_members(
                            all.take(i as int),
                            base@,
                            texts(used@),
                            self.setting(),
                            depth as nat,
                        ) == Ok::<Seq<(Seq<char>, Json)>, Stop>(members_view(resolved@)),
                    decreases members.len() - i,
                {
                    assert(decreases_to!(members => members@[i as int].1));
                    assert(all.take(i + 1).drop_last() == all.take(i as int));
                    assert(all.take(i + 1).last() == (members[i as int].0@, members[i as int].1@));
                    match self.resolve(&members[i].1, base, used, depth) {
                        Err(halt) => {
                            proof {
                                lemma_members_stop(
                                    all,
                                    i + 1,
                                    base@,
                                    texts(used@),
                                    self.setting(),
                                    depth as nat,
                                );
                            }
                            return Err(halt);
                        },
                        Ok(value) => {
                            let ghost before = members_view(resolved@);
                            let key = members[i].0.clone();
                            resolved.push((key, value));
                            assert(members_view(resolved@) =~= before.push((key@, value@)));
                        },
                    }
                    i = i + 1;
                }
                assert(all.take(i as int) == all);
                Ok(Document::Object(resolved))
            },
            _ => Ok(node.duplicate()),
        }
    }
}

} // verus!
