//! What holds of every resolution.
use crate::document::{
    distinct_keys, lemma_position, lemma_position_is, lemma_well_formed_array,
    lemma_well_formed_object, position, Json,
};
use crate::error::Failure;
use crate::pointer::{child, descend, lemma_token_length, pointer_target, token_length, unescape};
use crate::reference::{request_location, target_of, Place};
use crate::resolution::{
    effective_base, expand, pointed, ref_key, resolve, resolve_children, resolve_items,
    resolve_members, substitute, text_member, with_member, without_member, Setting, Stop,
};
use vstd::prelude::*;

verus! {

/// Whether a node, or a node below it, is a reference: an object with a
/// string under `$ref`.
pub open spec fn has_reference(node: Json) -> bool
    decreases node,
{
    match node {
        Json::Object(members) => text_member(node, ref_key()) is Some || exists|i: int|
            0 <= i < members.len() && has_reference(#[trigger] members[i].1),
        Json::Array(items) => exists|i: int|
            0 <= i < items.len() && has_reference(#[trigger] items[i]),
        _ => false,
    }
}

/// Resolving a document that holds no reference returns it unchanged,
/// whatever the base, the documents at hand, the wrapper key and the limit.
pub proof fn lemma_no_reference_no_change(
    node: Json,
    base: Seq<char>,
    used: Seq<Seq<char>>,
    setting: Setting,
    depth: nat,
)
    requires
        !has_reference(node),
    ensures
        resolve(node, base, used, setting, depth) == Ok::<Json, Stop>(node),
    decreases node, 1nat,
{
    let here = effective_base(node, base);
    match node {
        Json::Array(items) => {
            lemma_items_no_change(items, here, used, setting, depth);
        },
        Json::Object(members) => {
            lemma_members_no_change(members, here, used, setting, depth);
        },
        _ => {},
    }
}

/// The elements of an array that hold no reference resolve to themselves.
proof fn lemma_items_no_change(
    items: Seq<Json>,
    base: Seq<char>,
    used: Seq<Seq<char>>,
    setting: Setting,
    depth: nat,
)
    requires
        forall|i: int| 0 <= i < items.len() ==> !has_reference(#[trigger] items[i]),
    ensures
        resolve_items(items, base, used, setting, depth) == Ok::<Seq<Json>, Stop>(items),
    decreases items, 0nat,
{
    if items.len() > 0 {
        let front = items.drop_last();
        assert(forall|i: int| 0 <= i < front.len() ==> front[i] == items[i]);
        lemma_items_no_change(front, base, used, setting, depth);
        lemma_no_reference_no_change(items.last(), base, used, setting, depth);
        assert(front.push(items.last()) == items);
    }
}

/// The members of an object that hold no reference resolve to themselves.
proof fn lemma_members_no_change(
    members: Seq<(Seq<char>, Json)>,
    base: Seq<char>,
    used: Seq<Seq<char>>,
    setting: Setting,
    depth: nat,
)
    requires
        forall|i: int| 0 <= i < members.len() ==> !has_reference(#[trigger] members[i].1),
    ensures
        resolve_members(members, base, used, setting, depth) == Ok::<
            Seq<(Seq<char>, Json)>,
            Stop,
        >(members),
    decreases members, 0nat,
{
    if members.len() > 0 {
        let front = members.drop_last();
        assert(forall|i: int| 0 <= i < front.len() ==> front[i] == members[i]);
        lemma_members_no_change(front, base, used, setting, depth);
        lemma_no_reference_no_change(members.last().1, base, used, setting, depth);
        assert(front.push((members.last().0, members.last().1)) == members);
    }
}

/// Resolving again what a resolution returned, where no reference is left
/// in it, returns it unchanged.
pub proof fn lemma_resolved_stays(
    document: Json,
    base: Seq<char>,
    setting: Setting,
    depth: nat,
    resolved: Json,
    again_base: Seq<char>,
    again_setting: Setting,
    again_depth: nat,
)
    requires
        resolve(document, base, Seq::empty(), setting, depth) == Ok::<Json, Stop>(resolved),
        !has_reference(resolved),
    ensures
        resolve(resolved, again_base, Seq::empty(), again_setting, again_depth) == Ok::<
            Json,
            Stop,
        >(resolved),
{
    lemma_no_reference_no_change(resolved, again_base, Seq::empty(), again_setting, again_depth);
}

/// A reference whose fragment addresses nothing in the document at hand for
/// its location fails with the reference and the pointer; nothing is put in
/// its place.
pub proof fn lemma_pointer_not_found(
    node: Json,
    base: Seq<char>,
    used: Seq<Seq<char>>,
    setting: Setting,
    depth: nat,
    index: int,
    reference: Seq<char>,
    place: Place,
    pointer: Seq<char>,
)
    requires
        text_member(node, ref_key()) == Some((index, reference)),
        target_of(effective_base(node, base), reference) == Ok::<Place, Failure>(place),
        !used.contains(place.url),
        setting.store.contains_key(place.location),
        place.fragment == Some(pointer),
        pointer_target(setting.store[place.location], pointer) is None,
    ensures
        resolve(node, base, used, setting, depth) == Err::<Json, Stop>(
            Stop::Error(Failure::JsonPointerNotFound { reference, pointer }),
        ),
{
}

/// The children of a node that holds no reference resolve to themselves,
/// whatever the base.
proof fn lemma_children_no_change(
    node: Json,
    base: Seq<char>,
    used: Seq<Seq<char>>,
    setting: Setting,
    depth: nat,
)
    requires
        !has_reference(node),
    ensures
        resolve_children(node, base, used, setting, depth) == Ok::<Json, Stop>(node),
{
    match node {
        Json::Array(items) => {
            lemma_items_no_change(items, base, used, setting, depth);
        },
        Json::Object(members) => {
            lemma_members_no_change(members, base, used, setting, depth);
        },
        _ => {},
    }
}

/// Simple substitution. A reference that is not being expanded, whose
/// document is at hand and whose pointer finds content that resolves to a
/// document without reference, is replaced by that document. Where a
/// wrapper key is set that the document, an object, does not have, the
/// document also holds under that key what the node held besides the
/// reference, resolved against the base of the node.
pub proof fn lemma_substitution(
    node: Json,
    index: int,
    reference: Seq<char>,
    place: Place,
    here: Seq<char>,
    used: Seq<Seq<char>>,
    setting: Setting,
    depth: nat,
    content: Json,
    resolved: Json,
)
    requires
        !used.contains(place.url),
        setting.store.contains_key(place.location),
        pointed(setting.store[place.location], place) == Some(content),
        depth > 0,
        resolve(content, place.location, used.push(place.url), setting, (depth - 1) as nat)
            == Ok::<Json, Stop>(resolved),
        !has_reference(resolved),
    ensures
        match (setting.wrapper, resolved) {
            (Some(key), Json::Object(inner)) => position(inner, key) is None ==> expand(
                node,
                index,
                reference,
                place,
                here,
                used,
                setting,
                depth,
            ) == match resolve(
                without_member(node, index),
                here,
                used,
                setting,
                (depth - 1) as nat,
            ) {
                Ok(rest) => Ok::<Json, Stop>(Json::Object(inner.push((key, rest)))),
                Err(stop) => Err(stop),
            },
            _ => expand(node, index, reference, place, here, used, setting, depth) == Ok::<
                Json,
                Stop,
            >(resolved),
        },
{
    let rest = without_member(node, index);
    let below = (depth - 1) as nat;
    match (setting.wrapper, resolved) {
        (Some(key), Json::Object(inner)) => {
            if position(inner, key) is None {
                let put = inner.push((key, rest));
                assert(substitute(resolved, rest, setting.wrapper) == Json::Object(put));
                assert(put.drop_last() == inner);
                assert(put.last() == (key, rest));
                lemma_members_no_change(inner, here, used, setting, below);
            }
        },
        _ => {
            assert(substitute(resolved, rest, setting.wrapper) == resolved);
            lemma_children_no_change(resolved, here, used, setting, below);
        },
    }
}

/// Two references that lead to the same place from nodes with the same
/// base, with the same references being expanded around them, end with
/// equal content, each resolved from the document at hand: where the nodes
/// hold the same besides the reference, or where no wrapper key is set and
/// the reference is not being expanded.
pub proof fn lemma_same_place_same_content(
    first: Json,
    first_index: int,
    first_reference: Seq<char>,
    second: Json,
    second_index: int,
    second_reference: Seq<char>,
    place: Place,
    here: Seq<char>,
    used: Seq<Seq<char>>,
    setting: Setting,
    depth: nat,
)
    requires
        without_member(first, first_index) == without_member(second, second_index) || (
        setting.wrapper is None && !used.contains(place.url)),
    ensures
        match expand(first, first_index, first_reference, place, here, used, setting, depth) {
            Ok(content) => expand(
                second,
                second_index,
                second_reference,
                place,
                here,
                used,
                setting,
                depth,
            ) == Ok::<Json, Stop>(content),
            Err(Stop::Fetch(request)) => expand(
                second,
                second_index,
                second_reference,
                place,
                here,
                used,
                setting,
                depth,
            ) == Err::<Json, Stop>(Stop::Fetch(request)),
            Err(Stop::Error(_)) => expand(
                second,
                second_index,
                second_reference,
                place,
                here,
                used,
                setting,
                depth,
            ) matches Err(Stop::Error(_)),
        },
{
}

/// Elements that resolve, resolve one by one: to as many elements, each
/// the resolved form of the element in its place.
pub proof fn lemma_items_resolve_each(
    items: Seq<Json>,
    base: Seq<char>,
    used: Seq<Seq<char>>,
    setting: Setting,
    depth: nat,
)
    ensures
        resolve_items(items, base, used, setting, depth) matches Ok(resolved) ==> resolved.len()
            == items.len() && forall|i: int|
            0 <= i < items.len() ==> resolve(#[trigger] items[i], base, used, setting, depth)
                == Ok::<Json, Stop>(resolved[i]),
    decreases items.len(),
{
    if items.len() > 0 {
        let front = items.drop_last();
        lemma_items_resolve_each(front, base, used, setting, depth);
        assert(forall|i: int| 0 <= i < front.len() ==> front[i] == items[i]);
    }
}

/// Members that resolve, resolve one by one: to as many members, each with
/// the key it had and its value resolved.
pub proof fn lemma_members_resolve_each(
    members: Seq<(Seq<char>, Json)>,
    base: Seq<char>,
    used: Seq<Seq<char>>,
    setting: Setting,
    depth: nat,
)
    ensures
        resolve_members(members, base, used, setting, depth) matches Ok(resolved)
            ==> resolved.len() == members.len() && forall|i: int|
            0 <= i < members.len() ==> (#[trigger] resolved[i]).0 == members[i].0 && resolve(
                members[i].1,
                base,
                used,
                setting,
                depth,
            ) == Ok::<Json, Stop>(resolved[i].1),
    decreases members.len(),
{
    if members.len() > 0 {
        let front = members.drop_last();
        lemma_members_resolve_each(front, base, used, setting, depth);
        assert(forall|i: int| 0 <= i < front.len() ==> front[i] == members[i]);
    }
}

/// Members with the same keys in the same order have a key at the same
/// position.
proof fn lemma_position_by_keys(
    a: Seq<(Seq<char>, Json)>,
    b: Seq<(Seq<char>, Json)>,
    key: Seq<char>,
)
    requires
        a.len() == b.len(),
        forall|i: int| 0 <= i < a.len() ==> (#[trigger] a[i]).0 == b[i].0,
    ensures
        position(a, key) == position(b, key),
{
    lemma_position(a, key);
    lemma_position(b, key);
    match position(b, key) {
        Some(at) => {
            assert(a[at].0 == b[at].0);
            assert forall|j: int| 0 <= j < at implies a[j].0 != key by {
                assert(a[j].0 == b[j].0);
            }
            lemma_position_is(a, key, at);
        },
        None => {
            if let Some(at) = position(a, key) {
                assert(a[at].0 == b[at].0);
            }
        },
    }
}

/// With a wrapper key set, a node that held a reference to an object holds
/// under the wrapper key what it held besides the reference, resolved
/// against the base of the node.
pub proof fn lemma_wrapper_keeps_members(
    node: Json,
    index: int,
    reference: Seq<char>,
    place: Place,
    here: Seq<char>,
    used: Seq<Seq<char>>,
    setting: Setting,
    depth: nat,
    key: Seq<char>,
    content: Json,
    inner: Seq<(Seq<char>, Json)>,
    resolved: Json,
)
    requires
        setting.wrapper == Some(key),
        !used.contains(place.url),
        setting.store.contains_key(place.location),
        pointed(setting.store[place.location], place) == Some(content),
        depth > 0,
        resolve(content, place.location, used.push(place.url), setting, (depth - 1) as nat)
            == Ok::<Json, Stop>(Json::Object(inner)),
        expand(node, index, reference, place, here, used, setting, depth) == Ok::<Json, Stop>(
            resolved,
        ),
    ensures
        resolved is Object,
        position(resolved->Object_0, key) matches Some(at) && resolve(
            without_member(node, index),
            here,
            used,
            setting,
            (depth - 1) as nat,
        ) == Ok::<Json, Stop>(resolved->Object_0[at].1),
{
    let rest = without_member(node, index);
    let put = with_member(inner, key, rest);
    lemma_position(inner, key);
    let at = match position(inner, key) {
        Some(at) => at,
        None => inner.len() as int,
    };
    assert(put[at] == (key, rest));
    assert forall|j: int| 0 <= j < at implies put[j].0 != key by {
        assert(put[j] == inner[j]);
    }
    lemma_position_is(put, key, at);
    lemma_members_resolve_each(put, here, used, setting, (depth - 1) as nat);
    let after = resolved->Object_0;
    lemma_position_by_keys(after, put, key);
    assert(after[at].0 == put[at].0);
}

/// A reference that is being expanded around a node is not expanded again:
/// the node loses the reference and is left at that, whatever the documents
/// at hand and the limit.
pub proof fn lemma_cycle_is_cut(
    node: Json,
    index: int,
    reference: Seq<char>,
    place: Place,
    here: Seq<char>,
    used: Seq<Seq<char>>,
    setting: Setting,
    depth: nat,
)
    requires
        used.contains(place.url),
    ensures
        expand(node, index, reference, place, here, used, setting, depth) == Ok::<Json, Stop>(
            without_member(node, index),
        ),
{
}

/// Whether a resolution that stopped for a document stopped for one that
/// is not at hand.
pub open spec fn asks_for_missing<T>(result: Result<T, Stop>, setting: Setting) -> bool {
    result matches Err(Stop::Fetch(request)) ==> !setting.store.contains_key(
        request_location(request),
    )
}

/// A resolution asks only for a document that is not at hand: the document
/// of a location is fetched at most once.
pub proof fn lemma_fetch_only_missing(
    node: Json,
    base: Seq<char>,
    used: Seq<Seq<char>>,
    setting: Setting,
    depth: nat,
)
    ensures
        asks_for_missing(resolve(node, base, used, setting, depth), setting),
    decreases depth, node, 2nat,
{
    let here = effective_base(node, base);
    match text_member(node, ref_key()) {
        None => lemma_children_fetch_only_missing(node, here, used, setting, depth),
        Some((index, reference)) => match target_of(here, reference) {
            Err(_) => {},
            Ok(place) => lemma_expand_fetch_only_missing(
                node,
                index,
                reference,
                place,
                here,
                used,
                setting,
                depth,
            ),
        },
    }
}

/// A document that is at hand is not asked for: once the document of a
/// location has been supplied, no resolution asks for that location.
pub proof fn lemma_held_is_not_asked(
    node: Json,
    base: Seq<char>,
    used: Seq<Seq<char>>,
    setting: Setting,
    depth: nat,
    location: Seq<char>,
)
    requires
        setting.store.contains_key(location),
    ensures
        resolve(node, base, used, setting, depth) matches Err(Stop::Fetch(request))
            ==> request_location(request) != location,
{
    lemma_fetch_only_missing(node, base, used, setting, depth);
}

/// An expansion asks only for a document that is not at hand.
pub proof fn lemma_expand_fetch_only_missing(
    node: Json,
    index: int,
    reference: Seq<char>,
    place: Place,
    here: Seq<char>,
    used: Seq<Seq<char>>,
    setting: Setting,
    depth: nat,
)
    ensures
        asks_for_missing(
            expand(node, index, reference, place, here, used, setting, depth),
            setting,
        ),
    decreases depth, node, 1nat,
{
    if !used.contains(place.url) && setting.store.contains_key(place.location) && depth > 0 {
        match place.fragment {
            Some(pointer) => {
                match pointer_target(setting.store[place.location], pointer) {
                    Some(content) => lemma_expanded_fetch_only_missing(
                        node,
                        index,
                        content,
                        place,
                        here,
                        used,
                        setting,
                        depth,
                    ),
                    None => {},
                }
            },
            None => lemma_expanded_fetch_only_missing(
                node,
                index,
                setting.store[place.location],
                place,
                here,
                used,
                setting,
                depth,
            ),
        }
    }
}

/// What follows the lookup of an expansion asks only for a document that
/// is not at hand.
proof fn lemma_expanded_fetch_only_missing(
    node: Json,
    index: int,
    content: Json,
    place: Place,
    here: Seq<char>,
    used: Seq<Seq<char>>,
    setting: Setting,
    depth: nat,
)
    requires
        depth > 0,
    ensures
        asks_for_missing(
            resolve(content, place.location, used.push(place.url), setting, (depth - 1) as nat),
            setting,
        ),
        resolve(content, place.location, used.push(place.url), setting, (depth - 1) as nat)
            matches Ok(resolved) ==> asks_for_missing(
            resolve_children(
                substitute(resolved, without_member(node, index), setting.wrapper),
                here,
                used,
                setting,
                (depth - 1) as nat,
            ),
            setting,
        ),
    decreases depth, node, 0nat,
{
    let inner = resolve(
        content,
        place.location,
        used.push(place.url),
        setting,
        (depth - 1) as nat,
    );
    lemma_fetch_only_missing(
        content,
        place.location,
        used.push(place.url),
        setting,
        (depth - 1) as nat,
    );
    if let Ok(resolved) = inner {
        lemma_children_fetch_only_missing(
            substitute(resolved, without_member(node, index), setting.wrapper),
            here,
            used,
            setting,
            (depth - 1) as nat,
        );
    }
}

/// The children of a node ask only for a document that is not at hand.
proof fn lemma_children_fetch_only_missing(
    node: Json,
    base: Seq<char>,
    used: Seq<Seq<char>>,
    setting: Setting,
    depth: nat,
)
    ensures
        asks_for_missing(resolve_children(node, base, used, setting, depth), setting),
    decreases depth, node, 1nat,
{
    match node {
        Json::Array(items) => lemma_items_fetch_only_missing(items, base, used, setting, depth),
        Json::Object(members) => lemma_members_fetch_only_missing(
            members,
            base,
            used,
            setting,
            depth,
        ),
        _ => {},
    }
}

/// The elements of an array ask only for a document that is not at hand.
proof fn lemma_items_fetch_only_missing(
    items: Seq<Json>,
    base: Seq<char>,
    used: Seq<Seq<char>>,
    setting: Setting,
    depth: nat,
)
    ensures
        asks_for_missing(resolve_items(items, base, used, setting, depth), setting),
    decreases depth, items, 0nat,
{
    if items.len() > 0 {
        lemma_items_fetch_only_missing(items.drop_last(), base, used, setting, depth);
        lemma_fetch_only_missing(items.last(), base, used, setting, depth);
    }
}

/// The members of an object ask only for a document that is not at hand.
proof fn lemma_members_fetch_only_missing(
    members: Seq<(Seq<char>, Json)>,
    base: Seq<char>,
    used: Seq<Seq<char>>,
    setting: Setting,
    depth: nat,
)
    ensures
        asks_for_missing(resolve_members(members, base, used, setting, depth), setting),
    decreases depth, members, 0nat,
{
    if members.len() > 0 {
        lemma_members_fetch_only_missing(members.drop_last(), base, used, setting, depth);
        lemma_fetch_only_missing(members.last().1, base, used, setting, depth);
    }
}

/// Whether every document at hand is well formed.
pub open spec fn store_well_formed(store: Map<Seq<char>, Json>) -> bool {
    forall|location: Seq<char>|
        store.contains_key(location) ==> (#[trigger] store[location]).well_formed()
}

/// What a token selects in a well-formed node is well formed.
proof fn lemma_child_well_formed(node: Json, token: Seq<char>)
    requires
        node.well_formed(),
    ensures
        child(node, token) matches Some(next) ==> next.well_formed(),
{
    match node {
        Json::Object(members) => {
            lemma_position(members, token);
            lemma_well_formed_object(members);
        },
        Json::Array(items) => {
            lemma_well_formed_array(items);
        },
        _ => {},
    }
}

/// What a path leads to in a well-formed node is well formed.
proof fn lemma_descend_well_formed(node: Json, path: Seq<char>)
    requires
        node.well_formed(),
    ensures
        descend(node, path) matches Some(found) ==> found.well_formed(),
    decreases path.len(),
{
    let end = token_length(path);
    lemma_token_length(path);
    let token = unescape(path.take(end));
    lemma_child_well_formed(node, token);
    if let Some(next) = child(node, token) {
        if end != path.len() {
            lemma_descend_well_formed(next, path.skip(end + 1));
        }
    }
}

/// What a pointer addresses in a well-formed document is well formed.
pub proof fn lemma_pointer_well_formed(document: Json, pointer: Seq<char>)
    requires
        document.well_formed(),
    ensures
        pointer_target(document, pointer) matches Some(found) ==> found.well_formed(),
{
    if pointer.len() > 0 && pointer[0] == '/' {
        lemma_descend_well_formed(document, pointer.skip(1));
    }
}

/// A well-formed object stays well formed without one of its members.
proof fn lemma_without_member_well_formed(members: Seq<(Seq<char>, Json)>, index: int)
    requires
        Json::Object(members).well_formed(),
        0 <= index < members.len(),
    ensures
        Json::Object(members.remove(index)).well_formed(),
{
    let rest = members.remove(index);
    lemma_well_formed_object(members);
    lemma_well_formed_object(rest);
    assert forall|i: int| 0 <= i < rest.len() implies rest[i] == members[if i < index {
        i
    } else {
        i + 1
    }] by {}
    assert forall|i: int| 0 <= i < rest.len() implies (#[trigger] rest[i]).1.well_formed() by {
        let k = if i < index {
            i
        } else {
            i + 1
        };
        assert(rest[i] == members[k]);
    }
    assert forall|i: int, j: int| 0 <= i < j < rest.len() implies rest[i].0 != rest[j].0 by {
        let a = if i < index {
            i
        } else {
            i + 1
        };
        let b = if j < index {
            j
        } else {
            j + 1
        };
        assert(rest[i] == members[a]);
        assert(rest[j] == members[b]);
    }
}

/// A well-formed object stays well formed with a well-formed value put
/// under a key.
proof fn lemma_with_member_well_formed(
    members: Seq<(Seq<char>, Json)>,
    key: Seq<char>,
    value: Json,
)
    requires
        Json::Object(members).well_formed(),
        value.well_formed(),
    ensures
        Json::Object(with_member(members, key, value)).well_formed(),
{
    let put = with_member(members, key, value);
    lemma_well_formed_object(members);
    lemma_well_formed_object(put);
    lemma_position(members, key);
    match position(members, key) {
        Some(at) => {
            assert forall|i: int| 0 <= i < put.len() implies (#[trigger] put[i]).1.well_formed() by {
                if i != at {
                    assert(put[i] == members[i]);
                }
            }
            assert forall|i: int, j: int| 0 <= i < j < put.len() implies put[i].0 != put[j].0 by {
                assert(put[i].0 == members[i].0);
                assert(put[j].0 == members[j].0);
            }
        },
        None => {
            assert forall|i: int| 0 <= i < put.len() implies (#[trigger] put[i]).1.well_formed() by {
                if i < members.len() {
                    assert(put[i] == members[i]);
                }
            }
            assert forall|i: int, j: int| 0 <= i < j < put.len() implies put[i].0 != put[j].0 by {
                assert(put[i] == members[i]);
                if j < members.len() {
                    assert(put[j] == members[j]);
                }
            }
        },
    }
}

/// Resolving a well-formed document with well-formed documents at hand
/// gives a well-formed document: no object of it has a key twice.
pub proof fn lemma_resolved_well_formed(
    node: Json,
    base: Seq<char>,
    used: Seq<Seq<char>>,
    setting: Setting,
    depth: nat,
)
    requires
        node.well_formed(),
        store_well_formed(setting.store),
    ensures
        resolve(node, base, used, setting, depth) matches Ok(resolved) ==> resolved.well_formed(),
    decreases depth, node, 2nat,
{
    let here = effective_base(node, base);
    match text_member(node, ref_key()) {
        None => lemma_children_well_formed(node, here, used, setting, depth),
        Some((index, reference)) => {
            lemma_position(node->Object_0, ref_key());
            match target_of(here, reference) {
                Err(_) => {},
                Ok(place) => lemma_expanded_well_formed(
                    node,
                    index,
                    reference,
                    place,
                    here,
                    used,
                    setting,
                    depth,
                ),
            }
        },
    }
}

/// Expanding a reference in a well-formed object with well-formed
/// documents at hand gives a well-formed document.
pub proof fn lemma_expanded_well_formed(
    node: Json,
    index: int,
    reference: Seq<char>,
    place: Place,
    here: Seq<char>,
    used: Seq<Seq<char>>,
    setting: Setting,
    depth: nat,
)
    requires
        node.well_formed(),
        node is Object,
        0 <= index < node->Object_0.len(),
        store_well_formed(setting.store),
    ensures
        expand(node, index, reference, place, here, used, setting, depth) matches Ok(resolved)
            ==> resolved.well_formed(),
    decreases depth, node, 1nat,
{
    let rest = without_member(node, index);
    lemma_without_member_well_formed(node->Object_0, index);
    if !used.contains(place.url) && setting.store.contains_key(place.location) && depth > 0 {
        let document = setting.store[place.location];
        if let Some(pointer) = place.fragment {
            lemma_pointer_well_formed(document, pointer);
        }
        if let Some(content) = pointed(document, place) {
            let inner = resolve(
                content,
                place.location,
                used.push(place.url),
                setting,
                (depth - 1) as nat,
            );
            lemma_resolved_well_formed(
                content,
                place.location,
                used.push(place.url),
                setting,
                (depth - 1) as nat,
            );
            if let Ok(resolved) = inner {
                let replaced = substitute(resolved, rest, setting.wrapper);
                if let Some(key) = setting.wrapper {
                    if let Json::Object(members) = resolved {
                        lemma_with_member_well_formed(members, key, rest);
                    }
                }
                lemma_children_well_formed(replaced, here, used, setting, (depth - 1) as nat);
            }
        }
    }
}

/// A well-formed node with its children resolved is well formed.
proof fn lemma_children_well_formed(
    node: Json,
    base: Seq<char>,
    used: Seq<Seq<char>>,
    setting: Setting,
    depth: nat,
)
    requires
        node.well_formed(),
        store_well_formed(setting.store),
    ensures
        resolve_children(node, base, used, setting, depth) matches Ok(resolved)
            ==> resolved.well_formed(),
    decreases depth, node, 1nat,
{
    match node {
        Json::Array(items) => {
            lemma_well_formed_array(items);
            lemma_items_well_formed(items, base, used, setting, depth);
            if let Ok(resolved) = resolve_items(items, base, used, setting, depth) {
                lemma_well_formed_array(resolved);
            }
        },
        Json::Object(members) => {
            lemma_well_formed_object(members);
            lemma_members_well_formed(members, base, used, setting, depth);
            if let Ok(resolved) = resolve_members(members, base, used, setting, depth) {
                lemma_well_formed_object(resolved);
            }
        },
        _ => {},
    }
}

/// Well-formed elements resolve to as many well-formed elements.
proof fn lemma_items_well_formed(
    items: Seq<Json>,
    base: Seq<char>,
    used: Seq<Seq<char>>,
    setting: Setting,
    depth: nat,
)
    requires
        forall|i: int| 0 <= i < items.len() ==> (#[trigger] items[i]).well_formed(),
        store_well_formed(setting.store),
    ensures
        resolve_items(items, base, used, setting, depth) matches Ok(resolved) ==> resolved.len()
            == items.len() && forall|i: int|
            0 <= i < resolved.len() ==> (#[trigger] resolved[i]).well_formed(),
    decreases depth, items, 0nat,
{
    if items.len() > 0 {
        let front = items.drop_last();
        assert(forall|i: int| 0 <= i < front.len() ==> front[i] == items[i]);
        lemma_items_well_formed(front, base, used, setting, depth);
        lemma_resolved_well_formed(items.last(), base, used, setting, depth);
    }
}

/// Members with well-formed values resolve to as many members with the
/// same keys and well-formed values.
proof fn lemma_members_well_formed(
    members: Seq<(Seq<char>, Json)>,
    base: Seq<char>,
    used: Seq<Seq<char>>,
    setting: Setting,
    depth: nat,
)
    requires
        forall|i: int| 0 <= i < members.len() ==> (#[trigger] members[i]).1.well_formed(),
        store_well_formed(setting.store),
    ensures
        resolve_members(members, base, used, setting, depth) matches Ok(resolved)
            ==> resolved.len() == members.len() && forall|i: int|
            0 <= i < resolved.len() ==> (#[trigger] resolved[i]).0 == members[i].0
                && resolved[i].1.well_formed(),
    decreases depth, members, 0nat,
{
    if members.len() > 0 {
        let front = members.drop_last();
        assert(forall|i: int| 0 <= i < front.len() ==> front[i] == members[i]);
        lemma_members_well_formed(front, base, used, setting, depth);
        lemma_resolved_well_formed(members.last().1, base, used, setting, depth);
    }
}

} // verus!
