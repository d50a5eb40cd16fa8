//! The JSON document tree and its mathematical model.
use crate::text::{chars_of, spells};
use vstd::prelude::*;

verus! {

/// A JSON number, kept as the integer it is or as the bit pattern of its
/// double. Resolution never looks inside a number.
#[derive(Clone, Copy, Debug, PartialEq, Eq)]
pub enum Number {
    Unsigned(u64),
    Signed(i64),
    Double { bits: u64 },
}

/// The mathematical value of a document: strings are sequences of
/// characters, arrays sequences of values, objects sequences of members in
/// the order in which they were inserted.
pub enum Json {
    Null,
    Bool(bool),
    Number(Number),
    Text(Seq<char>),
    Array(Seq<Json>),
    Object(Seq<(Seq<char>, Json)>),
}

/// Whether no two of the members have the same key.
pub open spec fn distinct_keys(members: Seq<(Seq<char>, Json)>) -> bool {
    forall|i: int, j: int| 0 <= i < j < members.len() ==> members[i].0 != members[j].0
}

impl Json {
    /// Whether every object of the value is a mapping: no key stands twice
    /// in it.
    pub open spec fn well_formed(self) -> bool
        decreases self,
    {
        match self {
            Json::Array(items) => forall|i: int|
                0 <= i < items.len() ==> (#[trigger] items[i]).well_formed(),
            Json::Object(members) => distinct_keys(members) && forall|i: int|
                0 <= i < members.len() ==> (#[trigger] members[i]).1.well_formed(),
            _ => true,
        }
    }
}

/// An array is well formed where its elements are.
pub proof fn lemma_well_formed_array(items: Seq<Json>)
    ensures
        Json::Array(items).well_formed() <==> forall|i: int|
            0 <= i < items.len() ==> (#[trigger] items[i]).well_formed(),
{
    let node = Json::Array(items);
    assert(node->Array_0 == items);
    assert(node.well_formed() == (forall|i: int|
        0 <= i < items.len() ==> (#[trigger] items[i]).well_formed()));
}

/// An object is well formed where its keys are distinct and the values of
/// its members are well formed.
pub proof fn lemma_well_formed_object(members: Seq<(Seq<char>, Json)>)
    ensures
        Json::Object(members).well_formed() <==> distinct_keys(members) && forall|i: int|
            0 <= i < members.len() ==> (#[trigger] members[i]).1.well_formed(),
{
    let node = Json::Object(members);
    assert(node->Object_0 == members);
    assert(node.well_formed() == (distinct_keys(members) && forall|i: int|
        0 <= i < members.len() ==> (#[trigger] members[i]).1.well_formed()));
}

/// A JSON document held in memory.
#[derive(Debug, PartialEq, Eq)]
pub enum Document {
    Null,
    Bool(bool),
    Number(Number),
    String(String),
    Array(Vec<Document>),
    Object(Vec<(String, Document)>),
}

impl View for Document {
    type V = Json;

    open spec fn view(&self) -> Json
        decreases self,
    {
        match self {
            Document::Null => Json::Null,
            Document::Bool(b) => Json::Bool(*b),
            Document::Number(n) => Json::Number(*n),
            Document::String(s) => Json::Text(s@),
            Document::Array(items) => Json::Array(items_view(items@)),
            Document::Object(members) => Json::Object(members_view(members@)),
        }
    }
}

/// The members of an object as the model has them.
pub open spec fn members_view(members: Seq<(String, Document)>) -> Seq<(Seq<char>, Json)>
    decreases members,
{
    Seq::new(
        members.len(),
        |i: int|
            if 0 <= i < members.len() {
                (members[i].0@, members[i].1@)
            } else {
                (Seq::empty(), Json::Null)
            },
    )
}

/// The elements of an array as the model has them.
pub open spec fn items_view(items: Seq<Document>) -> Seq<Json>
    decreases items,
{
    Seq::new(
        items.len(),
        |i: int|
            if 0 <= i < items.len() {
                items[i]@
            } else {
                Json::Null
            },
    )
}

/// The index of the first member of `members` that has the key `key`.
pub open spec fn position(members: Seq<(Seq<char>, Json)>, key: Seq<char>) -> Option<int>
    decreases members.len(),
{
    if members.len() == 0 {
        None
    } else {
        match position(members.drop_last(), key) {
            Some(i) => Some(i),
            None => if members.last().0 == key {
                Some(members.len() - 1)
            } else {
                None
            },
        }
    }
}

/// `position` finds a member with the key, and none stands before it; it
/// finds none only where no member has the key.
pub proof fn lemma_position(members: Seq<(Seq<char>, Json)>, key: Seq<char>)
    ensures
        match position(members, key) {
            Some(i) => 0 <= i < members.len() && members[i].0 == key && forall|j: int|
                0 <= j < i ==> members[j].0 != key,
            None => forall|j: int| 0 <= j < members.len() ==> members[j].0 != key,
        },
    decreases members.len(),
{
    if members.len() > 0 {
        let front = members.drop_last();
        lemma_position(front, key);
        assert(forall|j: int| 0 <= j < front.len() ==> front[j] == members[j]);
    }
}

/// A member with the key, before which none has it, is the one that
/// `position` finds.
pub proof fn lemma_position_is(members: Seq<(Seq<char>, Json)>, key: Seq<char>, i: int)
    requires
        0 <= i < members.len(),
        members[i].0 == key,
        forall|j: int| 0 <= j < i ==> members[j].0 != key,
    ensures
        position(members, key) == Some(i),
{
    lemma_position(members, key);
}

/// Finds the first member with the given key.
pub fn find_member(members: &Vec<(String, Document)>, key: &Vec<char>) -> (found: Option<usize>)
    ensures
        match found {
            Some(i) => i < members.len() && position(members_view(members@), key@) == Some(
                i as int,
            ),
            None => position(members_view(members@), key@) is None,
        },
{
    let ghost model = members_view(members@);
    let mut i: usize = 0;
    while i < members.len()
        invariant
            i <= members.len(),
            model == members_view(members@),
            forall|j: int| 0 <= j < i ==> model[j].0 != key@,
        decreases members.len() - i,
    {
        if spells(members[i].0.as_str(), key) {
            proof {
                lemma_position_is(model, key@, i as int);
            }
            return Some(i);
        }
        i = i + 1;
    }
    proof {
        lemma_position(model, key@);
    }
    None
}

impl Document {
    /// Whether every object of the document is a mapping: no key stands
    /// twice in it.
    pub fn is_well_formed(&self) -> (well_formed: bool)
        ensures
            well_formed == self@.well_formed(),
        decreases self,
    {
        match self {
            Document::Array(items) => {
                let mut i: usize = 0;
                while i < items.len()
                    invariant
                        decreases_to!(self => items),
                        self@ == Json::Array(items_view(items@)),
                        i <= items.len(),
                        forall|k: int|
                            0 <= k < i ==> (#[trigger] items_view(items@)[k]).well_formed(),
                    decreases items.len() - i,
                {
                    assert(decreases_to!(items => items@[i as int]));
                    assert(items_view(items@)[i as int] == items[i as int]@);
                    if !items[i].is_well_formed() {
                        proof {
                            lemma_well_formed_array(items_view(items@));
                        }
                        return false;
                    }
                    i = i + 1;
                }
                proof {
                    lemma_well_formed_array(items_view(items@));
                }
                true
            },
            Document::Object(members) => {
                let ghost model = members_view(members@);
                proof {
                    lemma_well_formed_object(model);
                }
                let mut i: usize = 0;
                while i < members.len()
                    invariant
                        decreases_to!(self => members),
                        model == members_view(members@),
                        self@ == Json::Object(model),
                        i <= members.len(),
                        forall|a: int, b: int| 0 <= a < b < i ==> model[a].0 != model[b].0,
                        Json::Object(model).well_formed() <==> distinct_keys(model) && forall|
                            k: int,
                        | 0 <= k < model.len() ==> (#[trigger] model[k]).1.well_formed(),
                        forall|k: int| 0 <= k < i ==> (#[trigger] model[k]).1.well_formed(),
                    decreases members.len() - i,
                {
                    assert(decreases_to!(members => members@[i as int].1));
                    assert(model[i as int] == (members[i as int].0@, members[i as int].1@));
                    let key = chars_of(members[i].0.as_str());
                    proof {
                        lemma_position(model, key@);
                    }
                    match find_member(members, &key) {
                        Some(first) => {
                            if first != i {
                                assert(model[first as int].0 == model[i as int].0);
                                return false;
                            }
                        },
                        None => {
                            return false;
                        },
                    }
                    if !members[i].1.is_well_formed() {
                        return false;
                    }
                    i = i + 1;
                }
                true
            },
            _ => true,
        }
    }

    /// A copy of the whole tree.
    pub fn duplicate(&self) -> (copy: Document)
        ensures
            copy@ == self@,
        decreases self,
    {
        match self {
            Document::Null => Document::Null,
            Document::Bool(b) => Document::Bool(*b),
            Document::Number(n) => Document::Number(*n),
            Document::String(s) => Document::String(s.clone()),
            Document::Array(items) => {
                let mut copies: Vec<Document> = Vec::new();
                let mut i: usize = 0;
                while i < items.len()
                    invariant
                        decreases_to!(self => items),
                        i <= items.len(),
                        copies.len() == i,
                        forall|j: int| 0 <= j < i ==> copies[j]@ == items[j]@,
                    decreases items.len() - i,
                {
                    assert(decreases_to!(items => items@[i as int]));
                    copies.push(items[i].duplicate());
                    i = i + 1;
                }
                assert(items_view(copies@) =~= items_view(items@));
                Document::Array(copies)
            },
            Document::Object(members) => {
                let mut copies: Vec<(String, Document)> = Vec::new();
                let mut i: usize = 0;
                while i < members.len()
                    invariant
                        decreases_to!(self => members),
                        i <= members.len(),
                        copies.len() == i,
                        forall|j: int|
                            0 <= j < i ==> copies[j].0@ == members[j].0@ && copies[j].1@
                                == members[j].1@,
                    decreases members.len() - i,
                {
                    assert(decreases_to!(members => members@[i as int].1));
                    copies.push((members[i].0.clone(), members[i].1.duplicate()));
                    i = i + 1;
                }
                assert(members_view(copies@) =~= members_view(members@));
                Document::Object(copies)
            },
        }
    }
}

} // verus!
