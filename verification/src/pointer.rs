//! JSON Pointer: a path of reference tokens into a document.
//!
//! A pointer is empty, or a sequence of tokens each preceded by `/`. In a
//! token `~1` stands for `/` and `~0` for `~`. A token selects the member of
//! an object that has it as key, or the element of an array at the index it
//! writes in decimal.
use crate::document::{find_member, items_view, members_view, position, Document, Json};
use crate::text::chars_of;
use vstd::prelude::*;

verus! {

/// The length of the token at the start of `path`: the number of characters
/// before the first `/`.
pub open spec fn token_length(path: Seq<char>) -> int
    decreases path.len(),
{
    if path.len() == 0 || path[0] == '/' {
        0
    } else {
        1 + token_length(path.skip(1))
    }
}

/// A token with its escapes replaced.
pub open spec fn unescape(token: Seq<char>) -> Seq<char>
    decreases token.len(),
{
    if token.len() == 0 {
        token
    } else if token.len() >= 2 && token[0] == '~' && token[1] == '1' {
        seq!['/'] + unescape(token.skip(2))
    } else if token.len() >= 2 && token[0] == '~' && token[1] == '0' {
        seq!['~'] + unescape(token.skip(2))
    } else {
        seq![token[0]] + unescape(token.skip(1))
    }
}

/// Whether a character is a decimal digit.
pub open spec fn is_digit(c: char) -> bool {
    '0' <= c <= '9'
}

/// The number that a sequence of digits writes.
pub open spec fn decimal(digits: Seq<char>) -> nat
    decreases digits.len(),
{
    if digits.len() == 0 {
        0
    } else {
        decimal(digits.drop_last()) * 10 + (digits.last() as nat - '0' as nat) as nat
    }
}

/// The array index that a token writes: digits only, at least one, and no
/// zero in front of another digit.
pub open spec fn array_index(token: Seq<char>) -> Option<nat> {
    if token.len() == 0 {
        None
    } else if token[0] == '0' && token.len() != 1 {
        None
    } else if forall|i: int| 0 <= i < token.len() ==> is_digit(#[trigger] token[i]) {
        Some(decimal(token))
    } else {
        None
    }
}

/// The child of `node` that an unescaped token selects.
pub open spec fn child(node: Json, token: Seq<char>) -> Option<Json> {
    match node {
        Json::Object(members) => match position(members, token) {
            Some(i) => Some(members[i].1),
            None => None,
        },
        Json::Array(items) => match array_index(token) {
            Some(n) => if n < items.len() {
                Some(items[n as int])
            } else {
                None
            },
            None => None,
        },
        _ => None,
    }
}

/// The node that the tokens of `path` lead to from `node`; `path` is a
/// pointer without its first `/`.
pub open spec fn descend(node: Json, path: Seq<char>) -> Option<Json>
    decreases path.len(),
{
    let end = token_length(path);
    if 0 <= end <= path.len() {
        match child(node, unescape(path.take(end))) {
            None => None,
            Some(next) => if end == path.len() {
                Some(next)
            } else {
                descend(next, path.skip(end + 1))
            },
        }
    } else {
        None
    }
}

/// The node of `document` that `pointer` addresses: the document itself for
/// the empty pointer, nothing for one that does not start with `/` or that
/// names a member or element that is not there.
pub open spec fn pointer_target(document: Json, pointer: Seq<char>) -> Option<Json> {
    if pointer.len() == 0 {
        Some(document)
    } else if pointer[0] != '/' {
        None
    } else {
        descend(document, pointer.skip(1))
    }
}

/// The length of a token is within the path.
pub proof fn lemma_token_length(path: Seq<char>)
    ensures
        0 <= token_length(path) <= path.len(),
        forall|i: int| 0 <= i < token_length(path) ==> path[i] != '/',
        token_length(path) < path.len() ==> path[token_length(path)] == '/',
    decreases path.len(),
{
    if path.len() != 0 && path[0] != '/' {
        let rest = path.skip(1);
        lemma_token_length(rest);
        assert(forall|i: int| 0 <= i < rest.len() ==> rest[i] == path[i + 1]);
        assert forall|i: int| 0 <= i < token_length(path) implies path[i] != '/' by {
            if i > 0 {
                assert(rest[i - 1] == path[i]);
            }
        }
    }
}

/// A stretch without `/` that ends at a `/` or at the end is the token.
proof fn lemma_token_length_is(path: Seq<char>, end: int)
    requires
        0 <= end <= path.len(),
        forall|i: int| 0 <= i < end ==> path[i] != '/',
        end < path.len() ==> path[end] == '/',
    ensures
        token_length(path) == end,
{
    lemma_token_length(path);
}

/// More digits never write a smaller number.
proof fn lemma_decimal_grows(digits: Seq<char>, k: int)
    requires
        0 <= k <= digits.len(),
    ensures
        decimal(digits.take(k)) <= decimal(digits),
    decreases digits.len() - k,
{
    if k < digits.len() {
        let longer = digits.take(k + 1);
        assert(longer.drop_last() == digits.take(k));
        lemma_decimal_grows(digits, k + 1);
    } else {
        assert(digits.take(k) == digits);
    }
}

/// Replaces the escapes of the token `chars[from..to]`.
fn unescaped(chars: &Vec<char>, from: usize, to: usize) -> (token: Vec<char>)
    requires
        from <= to <= chars.len(),
    ensures
        token@ == unescape(chars@.subrange(from as int, to as int)),
{
    let ghost raw = chars@.subrange(from as int, to as int);
    let mut token: Vec<char> = Vec::new();
    let mut i: usize = from;
    assert(raw.skip(0) == raw);
    assert(Seq::<char>::empty() + unescape(raw) == unescape(raw));
    while i < to
        invariant
            from <= i <= to <= chars.len(),
            raw == chars@.subrange(from as int, to as int),
            token@ + unescape(raw.skip(i - from)) == unescape(raw),
        decreases to - i,
    {
        let ghost rest = raw.skip(i - from);
        assert(rest.len() == to - i);
        assert(rest[0] == chars[i as int]);
        if chars[i] == '~' && i + 1 < to && (chars[i + 1] == '1' || chars[i + 1] == '0') {
            assert(rest[1] == chars[i + 1]);
            let c = if chars[i + 1] == '1' {
                '/'
            } else {
                '~'
            };
            assert(rest.skip(2) == raw.skip(i + 2 - from));
            assert(token@.push(c) + unescape(rest.skip(2)) == token@ + (seq![c] + unescape(
                rest.skip(2),
            )));
            token.push(c);
            i = i + 2;
        } else {
            let c = chars[i];
            assert(rest.len() >= 2 ==> rest[1] == chars[i + 1]);
            assert(rest.skip(1) == raw.skip(i + 1 - from));
            assert(token@.push(c) + unescape(rest.skip(1)) == token@ + (seq![c] + unescape(
                rest.skip(1),
            )));
            token.push(c);
            i = i + 1;
        }
    }
    assert(raw.skip(to - from).len() == 0);
    assert(token@ + Seq::<char>::empty() == token@);
    token
}

/// Reads a token as an index into an array of `length` elements.
fn index_within(token: &Vec<char>, length: usize) -> (index: Option<usize>)
    ensures
        match index {
            Some(n) => array_index(token@) == Some(n as nat) && n < length,
            None => match array_index(token@) {
                Some(n) => n >= length,
                None => true,
            },
        },
{
    if token.len() == 0 {
        return None;
    }
    if token[0] == '0' && token.len() != 1 {
        return None;
    }
    let mut value: usize = 0;
    let mut i: usize = 0;
    while i < token.len()
        invariant
            i <= token.len(),
            forall|j: int| 0 <= j < i ==> is_digit(#[trigger] token[j]),
            value == decimal(token@.take(i as int)),
            i > 0 ==> value < length,
        decreases token.len() - i,
    {
        let c = token[i];
        if !('0' <= c && c <= '9') {
            return None;
        }
        let digit: u128 = (c as u32 - '0' as u32) as u128;
        let next: u128 = (value as u128) * 10 + digit;
        proof {
            assert(token@.take(i + 1).drop_last() == token@.take(i as int));
            assert(next == decimal(token@.take(i + 1)));
            lemma_decimal_grows(token@, i + 1);
        }
        if next >= length as u128 {
            return None;
        }
        value = next as usize;
        i = i + 1;
    }
    assert(token@.take(i as int) == token@);
    Some(value)
}

/// The child of `node` that an unescaped token selects.
fn child_of<'a>(node: &'a Document, token: &Vec<char>) -> (found: Option<&'a Document>)
    ensures
        match found {
            Some(next) => child(node@, token@) == Some(next@),
            None => child(node@, token@) is None,
        },
{
    match node {
        Document::Object(members) => match find_member(members, token) {
            Some(i) => {
                assert(node@ == Json::Object(members_view(members@)));
                assert(members_view(members@)[i as int].1 == members[i as int].1@);
                assert(child(node@, token@) == Some(members[i as int].1@));
                Some(&members[i].1)
            },
            None => None,
        },
        Document::Array(items) => match index_within(token, items.len()) {
            Some(n) => {
                assert(node@ == Json::Array(items_view(items@)));
                assert(items_view(items@)[n as int] == items[n as int]@);
                assert(child(node@, token@) == Some(items[n as int]@));
                Some(&items[n])
            },
            None => None,
        },
        _ => None,
    }
}

impl Document {
    /// Looks up the node that a JSON Pointer addresses.
    pub fn pointer<'a>(&'a self, pointer: &str) -> (found: Option<&'a Document>)
        ensures
            match found {
                Some(node) => pointer_target(self@, pointer@) == Some(node@),
                None => pointer_target(self@, pointer@) is None,
            },
    {
        let chars = chars_of(pointer);
        if chars.len() == 0 {
            return Some(self);
        }
        if chars[0] != '/' {
            return None;
        }
        let mut node: &'a Document = self;
        let mut start: usize = 1;
        loop
            invariant
                chars@ == pointer@,
                1 <= start <= chars.len(),
                pointer_target(self@, pointer@) == descend(node@, chars@.skip(start as int)),
            decreases chars.len() - start,
        {
            let ghost path = chars@.skip(start as int);
            let mut end: usize = start;
            while end < chars.len() && chars[end] != '/'
                invariant
                    start <= end <= chars.len(),
                    forall|j: int| start <= j < end ==> chars[j] != '/',
                decreases chars.len() - end,
            {
                end = end + 1;
            }
            proof {
                lemma_token_length_is(path, end - start);
                assert(path.take(end - start) == chars@.subrange(start as int, end as int));
            }
            let token = unescaped(&chars, start, end);
            match child_of(node, &token) {
                None => {
                    return None;
                },
                Some(next) => {
                    if end == chars.len() {
                        return Some(next);
                    }
                    assert(path.skip(end - start + 1) == chars@.skip(end + 1));
                    node = next;
                    start = end + 1;
                },
            }
        }
    }
}

} // verus!
