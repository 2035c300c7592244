//! Comparison of texts.
use vstd::prelude::*;

verus! {

/// The text of an optional string.
pub open spec fn optional_text(text: Option<String>) -> Option<Seq<char>> {
    match text {
        Some(text) => Some(text@),
        None => None,
    }
}

/// Whether `text` reads as `other`.
pub fn reads(text: &str, other: &str) -> (same: bool)
    ensures
        same == (text@ == other@),
{
    text.to_owned() == other.to_owned()
}

/// Whether `text` is there and reads as `other`.
pub fn optional_reads(text: &Option<String>, other: &str) -> (same: bool)
    ensures
        same == (optional_text(*text) == Some(other@)),
{
    match text {
        Some(text) => reads(text.as_str(), other),
        None => false,
    }
}

/// A copy of an optional string.
pub fn copy_optional(text: &Option<String>) -> (copy: Option<String>)
    ensures
        optional_text(copy) == optional_text(*text),
        copy is Some <==> text is Some,
{
    match text {
        Some(text) => Some(text.clone()),
        None => None,
    }
}

/// The letter in lower case, if it is one of the 26 of ASCII.
pub open spec fn lowercase(c: char) -> char {
    if 'A' <= c <= 'Z' {
        (c as u32 + 32) as char
    } else {
        c
    }
}

/// Whether `part` occurs in `text`.
pub open spec fn occurs(text: Seq<char>, part: Seq<char>) -> bool {
    exists|start: int| #[trigger] occurs_at(text, part, start)
}

/// Whether `part` occurs in `text`, from `start` on.
pub open spec fn occurs_at(text: Seq<char>, part: Seq<char>, start: int) -> bool {
    0 <= start && start + part.len() <= text.len() && text.subrange(start, start + part.len())
        == part
}

/// The characters of a text, with ASCII letters in lower case.
pub fn lowercase_chars(text: &str) -> (chars: Vec<char>)
    ensures
        chars@ == text@.map_values(|c: char| lowercase(c)),
{
    let mut chars: Vec<char> = Vec::new();
    let ghost whole = text@;
    for c in iter: text.chars()
        invariant
            iter.seq() == whole,
            chars@ == whole.take(iter.index() as int).map_values(|c: char| lowercase(c)),
    {
        let lowered: char = if 'A' <= c && c <= 'Z' {
            ((c as u32 + 32) as u8) as char
        } else {
            c
        };
        chars.push(lowered);
    }
    assert(whole.take(whole.len() as int) =~= whole);
    chars
}

/// Whether `part` occurs in the text with these characters.
pub fn contains(text: &Vec<char>, part: &str) -> (found: bool)
    ensures
        found == occurs(text@, part@),
{
    let length: usize = part.unicode_len();
    let mut start: usize = 0;
    while start < text.len() && length <= text.len() - start
        invariant
            length == part@.len(),
            start <= text.len(),
            forall|s: int| 0 <= s < start ==> !occurs_at(text@, part@, s),
        decreases text.len() - start,
    {
        let mut i: usize = 0;
        while i < length && text[start + i] == part.get_char(i)
            invariant
                length == part@.len(),
                i <= length,
                start + length <= text.len(),
                forall|j: int| 0 <= j < i ==> text@[start + j] == part@[j],
            decreases length - i,
        {
            i = i + 1;
        }
        if i == length {
            assert(text@.subrange(start as int, start + length) =~= part@);
            assert(occurs_at(text@, part@, start as int));
            return true;
        }
        assert(!occurs_at(text@, part@, start as int)) by {
            if occurs_at(text@, part@, start as int) {
                assert(text@.subrange(start as int, start + length)[i as int] == part@[i as int]);
            }
        }
        start = start + 1;
    }
    if length == 0 {
        assert(text@.subrange(0, 0) =~= part@);
        assert(occurs_at(text@, part@, 0));
        return true;
    }
    false
}

/// Whether `part` occurs in `text`.
pub fn occurs_in(text: &str, part: &str) -> (found: bool)
    ensures
        found == occurs(text@, part@),
{
    let mut chars: Vec<char> = Vec::new();
    let ghost whole = text@;
    for c in iter: text.chars()
        invariant
            iter.seq() == whole,
            chars@ == whole.take(iter.index() as int),
    {
        chars.push(c);
    }
    assert(whole.take(whole.len() as int) =~= whole);
    contains(&chars, part)
}

} // verus!
