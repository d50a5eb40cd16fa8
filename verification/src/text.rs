//! Strings as sequences of characters.
use vstd::prelude::*;

verus! {

/// The strings of a sequence as sequences of characters.
pub open spec fn texts(strings: Seq<String>) -> Seq<Seq<char>> {
    strings.map_values(|s: String| s@)
}

/// The characters of a string, in order.
pub fn chars_of(text: &str) -> (chars: Vec<char>)
    ensures
        chars@ == text@,
{
    let mut chars: Vec<char> = Vec::new();
    for c in it: text.chars()
        invariant
            chars@ == it.seq().take(it.index()),
    {
        chars.push(c);
    }
    chars
}

/// Whether a string consists of exactly the given characters.
pub fn spells(text: &str, chars: &Vec<char>) -> (same: bool)
    ensures
        same == (text@ == chars@),
{
    let mut same = true;
    let mut seen: usize = 0;
    for c in it: text.chars()
        invariant
            it.seq() == text@,
            same ==> seen == it.index() && seen <= chars.len(),
            same ==> text@.take(seen as int) == chars@.take(seen as int),
            !same ==> text@ != chars@,
    {
        if same {
            if seen < chars.len() && chars[seen] == c {
                assert(text@.take(seen + 1) == text@.take(seen as int).push(c));
                assert(chars@.take(seen + 1) == chars@.take(seen as int).push(c));
                seen = seen + 1;
            } else {
                assert(text@ == chars@ ==> chars@[seen as int] == c);
                same = false;
            }
        }
    }
    assert(same ==> text@.take(seen as int) == text@);
    assert(seen == chars.len() ==> chars@.take(seen as int) == chars@);
    same && seen == chars.len()
}

} // verus!
