//! What resolving a document means.
//!
//! Resolution is defined here on the models of documents, as a function of
//! the node, the base it is read against, the references that are being
//! expanded around it, the documents at hand and the wrapper key. The
//! executable code is proved to compute it.
use crate::document::{position, Json};
use crate::error::Failure;
use crate::pointer::pointer_target;
use crate::reference::{fetch_of, target_of, Place, Request};
use vstd::prelude::*;

verus! {

/// Why a resolution stopped before it was complete.
pub enum Stop {
    /// A document is needed that the store does not hold.
    Fetch(Request),
    /// The resolution failed.
    Error(Failure),
}

/// What a resolution works with besides the document.
pub struct Setting {
    /// The documents at hand, by location.
    pub store: Map<Seq<char>, Json>,
    /// The key under which a node that held a reference keeps its other
    /// members, if they are kept.
    pub wrapper: Option<Seq<char>>,
}

/// The key of a reference.
pub open spec fn ref_key() -> Seq<char> {
    "$ref"@
}

/// The key of a base.
pub open spec fn id_key() -> Seq<char> {
    "$id"@
}

/// The first member of an object with the given key, if it holds a string:
/// its index and the string.
pub open spec fn text_member(node: Json, key: Seq<char>) -> Option<(int, Seq<char>)> {
    match node {
        Json::Object(members) => match position(members, key) {
            Some(i) => match members[i].1 {
                Json::Text(text) => Some((i, text)),
                _ => None,
            },
            None => None,
        },
        _ => None,
    }
}

/// The base that a node and its descendants are read against: its own `$id`
/// where it has one, as it stands; else the base it inherits.
pub open spec fn effective_base(node: Json, inherited: Seq<char>) -> Seq<char> {
    match text_member(node, id_key()) {
        Some((_, id)) => id,
        None => inherited,
    }
}

/// An object without its member at `index`.
pub open spec fn without_member(node: Json, index: int) -> Json {
    match node {
        Json::Object(members) => Json::Object(members.remove(index)),
        _ => node,
    }
}

/// The members with `value` under `key`: in place of the first member that
/// has the key, or at the end.
pub open spec fn with_member(
    members: Seq<(Seq<char>, Json)>,
    key: Seq<char>,
    value: Json,
) -> Seq<(Seq<char>, Json)> {
    match position(members, key) {
        Some(i) => members.update(i, (key, value)),
        None => members.push((key, value)),
    }
}

/// The node that takes the place of one that held a reference: the resolved
/// content, and in it, where a wrapper key is set and the content is an
/// object, what the node held besides the reference.
pub open spec fn substitute(content: Json, rest: Json, wrapper: Option<Seq<char>>) -> Json {
    match (wrapper, content) {
        (Some(key), Json::Object(members)) => Json::Object(with_member(members, key, rest)),
        _ => content,
    }
}

/// The part of a document that a place points at.
pub open spec fn pointed(document: Json, place: Place) -> Option<Json> {
    match place.fragment {
        Some(pointer) => pointer_target(document, pointer),
        None => Some(document),
    }
}

/// The resolved form of a node.
///
/// A node with a string under `$ref` is a reference, and is expanded; of any
/// other node, each child is resolved against the node's base.
///
/// `depth` bounds how many expansions may nest.
pub open spec fn resolve(
    node: Json,
    base: Seq<char>,
    used: Seq<Seq<char>>,
    setting: Setting,
    depth: nat,
) -> Result<Json, Stop>
    decreases depth, node, 2nat,
{
    let here = effective_base(node, base);
    match text_member(node, ref_key()) {
        None => resolve_children(node, here, used, setting, depth),
        Some((index, reference)) => match target_of(here, reference) {
            Err(failure) => Err(Stop::Error(failure)),
            Ok(place) => expand(node, index, reference, place, here, used, setting, depth),
        },
    }
}

/// The resolved form of a node whose member at `index` is the reference
/// `reference`, which leads to `place`.
///
/// The node loses that member. If the reference is being expanded around it
/// already, that is all, and nothing below it is resolved. Otherwise the part
/// of the stored document that the reference points at is resolved against
/// its own location, with this reference added to those being expanded, and
/// takes the place of the node. Then each child of the new node is resolved
/// against `here`, the base of the old one.
pub open spec fn expand(
    node: Json,
    index: int,
    reference: Seq<char>,
    place: Place,
    here: Seq<char>,
    used: Seq<Seq<char>>,
    setting: Setting,
    depth: nat,
) -> Result<Json, Stop>
    decreases depth, node, 1nat,
{
    if used.contains(place.url) {
        Ok(without_member(node, index))
    } else if !setting.store.contains_key(place.location) {
        match fetch_of(place.location) {
            Ok(request) => Err(Stop::Fetch(request)),
            Err(failure) => Err(Stop::Error(failure)),
        }
    } else {
        match pointed(setting.store[place.location], place) {
            None => Err(
                Stop::Error(
                    Failure::JsonPointerNotFound { reference, pointer: place.fragment.unwrap() },
                ),
            ),
            Some(content) => if depth == 0 {
                Err(Stop::Error(Failure::NestingLimit { reference }))
            } else {
                match resolve(
                    content,
                    place.location,
                    used.push(place.url),
                    setting,
                    (depth - 1) as nat,
                ) {
                    Err(stop) => Err(stop),
                    Ok(resolved) => resolve_children(
                        substitute(resolved, without_member(node, index), setting.wrapper),
                        here,
                        used,
                        setting,
                        (depth - 1) as nat,
                    ),
                }
            },
        }
    }
}

/// A node with each of its children resolved against `base`, in order. The
/// first child that stops the resolution stops it for the node.
pub open spec fn resolve_children(
    node: Json,
    base: Seq<char>,
    used: Seq<Seq<char>>,
    setting: Setting,
    depth: nat,
) -> Result<Json, Stop>
    decreases depth, node, 1nat,
{
    match node {
        Json::Array(items) => match resolve_items(items, base, used, setting, depth) {
            Ok(resolved) => Ok(Json::Array(resolved)),
            Err(stop) => Err(stop),
        },
        Json::Object(members) => match resolve_members(members, base, used, setting, depth) {
            Ok(resolved) => Ok(Json::Object(resolved)),
            Err(stop) => Err(stop),
        },
        _ => Ok(node),
    }
}

/// The elements of an array, each resolved.
pub open spec fn resolve_items(
    items: Seq<Json>,
    base: Seq<char>,
    used: Seq<Seq<char>>,
    setting: Setting,
    depth: nat,
) -> Result<Seq<Json>, Stop>
    decreases depth, items, 0nat,
{
    if items.len() == 0 {
        Ok(items)
    } else {
        match resolve_items(items.drop_last(), base, used, setting, depth) {
            Err(stop) => Err(stop),
            Ok(front) => match resolve(items.last(), base, used, setting, depth) {
                Err(stop) => Err(stop),
                Ok(last) => Ok(front.push(last)),
            },
        }
    }
}

/// The members of an object, the value of each resolved.
pub open spec fn resolve_members(
    members: Seq<(Seq<char>, Json)>,
    base: Seq<char>,
    used: Seq<Seq<char>>,
    setting: Setting,
    depth: nat,
) -> Result<Seq<(Seq<char>, Json)>, Stop>
    decreases depth, members, 0nat,
{
    if members.len() == 0 {
        Ok(members)
    } else {
        match resolve_members(members.drop_last(), base, used, setting, depth) {
            Err(stop) => Err(stop),
            Ok(front) => match resolve(members.last().1, base, used, setting, depth) {
                Err(stop) => Err(stop),
                Ok(last) => Ok(front.push((members.last().0, last))),
            },
        }
    }
}

/// Once a front part of an array stops the resolution, the array does.
pub proof fn lemma_items_stop(
    items: Seq<Json>,
    k: int,
    base: Seq<char>,
    used: Seq<Seq<char>>,
    setting: Setting,
    depth: nat,
)
    requires
        0 <= k <= items.len(),
        resolve_items(items.take(k), base, used, setting, depth) is Err,
    ensures
        resolve_items(items, base, used, setting, depth) == resolve_items(
            items.take(k),
            base,
            used,
            setting,
            depth,
        ),
    decreases items.len(),
{
    if k == items.len() {
        assert(items.take(k) == items);
    } else {
        assert(items.drop_last().take(k) == items.take(k));
        lemma_items_stop(items.drop_last(), k, base, used, setting, depth);
    }
}

/// Once a front part of the members stops the resolution, the object does.
pub proof fn lemma_members_stop(
    members: Seq<(Seq<char>, Json)>,
    k: int,
    base: Seq<char>,
    used: Seq<Seq<char>>,
    setting: Setting,
    depth: nat,
)
    requires
        0 <= k <= members.len(),
        resolve_members(members.take(k), base, used, setting, depth) is Err,
    ensures
        resolve_members(members, base, used, setting, depth) == resolve_members(
            members.take(k),
            base,
            used,
            setting,
            depth,
        ),
    decreases members.len(),
{
    if k == members.len() {
        assert(members.take(k) == members);
    } else {
        assert(members.drop_last().take(k) == members.take(k));
        lemma_members_stop(members.drop_last(), k, base, used, setting, depth);
    }
}

} // verus!
