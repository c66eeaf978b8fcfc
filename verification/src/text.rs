//! Character-level helpers on strings.
//!
//! Strings are viewed as sequences of `char`. The executable helpers work on
//! a `Vec<char>` copy of a string, so that a character can be read by index.

use vstd::prelude::*;

verus! {

/// The characters of `s`, in order.
pub(crate) fn chars_of(s: &str) -> (v: Vec<char>)
    ensures
        v@ == s@,
{
    let mut v: Vec<char> = Vec::new();
    for c in it: s.chars()
        invariant
            it.seq() == s@,
            v@ == it.seq().take(it.index() as int),
    {
        v.push(c);
    }
    v
}

/// Whether the first `upto` characters of `text` begin with `prefix`.
pub(crate) fn starts_with(text: &Vec<char>, upto: usize, prefix: &Vec<char>) -> (b: bool)
    requires
        upto <= text.len(),
    ensures
        b == prefix@.is_prefix_of(text@.take(upto as int)),
{
    if prefix.len() > upto {
        return false;
    }
    let mut i: usize = 0;
    while i < prefix.len()
        invariant
            i <= prefix.len() <= upto <= text.len(),
            forall|j: int| 0 <= j < i ==> prefix[j] == text[j],
        decreases prefix.len() - i,
    {
        if prefix[i] != text[i] {
            let ghost head = text@.take(upto as int).subrange(0, prefix.len() as int);
            assert(prefix@[i as int] != head[i as int]);
            return false;
        }
        i += 1;
    }
    assert(prefix@ =~= text@.take(upto as int).subrange(0, prefix.len() as int));
    true
}

/// The first position at which `list` holds the text of `needle`.
pub(crate) fn position(list: &Vec<String>, needle: &String) -> (at: Option<usize>)
    ensures
        match at {
            Some(i) => {
                &&& i < list.len()
                &&& list.deep_view()[i as int] == needle@
                &&& forall|j: int| 0 <= j < i ==> list.deep_view()[j] != needle@
            },
            None => !list.deep_view().contains(needle@),
        },
{
    let mut i: usize = 0;
    while i < list.len()
        invariant
            i <= list.len(),
            forall|j: int| 0 <= j < i ==> list.deep_view()[j] != needle@,
        decreases list.len() - i,
    {
        if list[i] == *needle {
            return Some(i);
        }
        i += 1;
    }
    None
}

} // verus!
