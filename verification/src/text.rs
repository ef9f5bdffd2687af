//! Searching in text, seen as a sequence of characters.
//!
//! The contracts of this crate speak of a string by its view, a `Seq<char>`.
//! The executable functions here work on a `Vec<char>`, which gives constant
//! time access to a character by its index.

use vstd::prelude::*;
use vstd::string::*;

verus! {

/// Whether `pattern` lies in `text` with its first character at index `at`.
pub open spec fn occurs_at(text: Seq<char>, pattern: Seq<char>, at: int) -> bool {
    &&& 0 <= at
    &&& at + pattern.len() <= text.len()
    &&& text.subrange(at, at + pattern.len()) == pattern
}

/// Whether `pattern` occurs at `at` and nowhere to the left of it.
pub open spec fn is_first_occurrence(text: Seq<char>, pattern: Seq<char>, at: int) -> bool {
    &&& occurs_at(text, pattern, at)
    &&& forall|i: int| 0 <= i < at ==> !occurs_at(text, pattern, i)
}

/// The index of the leftmost occurrence of `pattern` in `text`, if there is one.
pub open spec fn first_occurrence(text: Seq<char>, pattern: Seq<char>) -> Option<int> {
    if exists|at: int| is_first_occurrence(text, pattern, at) {
        Some(choose|at: int| is_first_occurrence(text, pattern, at))
    } else {
        None
    }
}

/// Whether `pattern` occurs anywhere in `text`.
pub open spec fn occurs_in(text: Seq<char>, pattern: Seq<char>) -> bool {
    exists|at: int| occurs_at(text, pattern, at)
}

/// The number of indices of `text` at which `pattern` occurs.
pub open spec fn occurrences(text: Seq<char>, pattern: Seq<char>) -> nat
    decreases text.len(),
{
    if text.len() == 0 {
        0
    } else {
        let here: nat = if occurs_at(text, pattern, 0) { 1 } else { 0 };
        here + occurrences(text.skip(1), pattern)
    }
}

/// A leftmost occurrence is the only one: the index that `first_occurrence` gives.
pub proof fn lemma_first_occurrence_is(text: Seq<char>, pattern: Seq<char>, at: int)
    requires
        is_first_occurrence(text, pattern, at),
    ensures
        first_occurrence(text, pattern) == Some(at),
{
    let chosen = choose|i: int| is_first_occurrence(text, pattern, i);
    assert(is_first_occurrence(text, pattern, chosen));
    if chosen < at {
        assert(!occurs_at(text, pattern, chosen));
    } else if at < chosen {
        assert(!occurs_at(text, pattern, at));
    }
}

/// Where a pattern occurs at all, it has a leftmost occurrence, at or before the given one.
pub proof fn lemma_leftmost_exists(text: Seq<char>, pattern: Seq<char>, at: int)
    requires
        occurs_at(text, pattern, at),
    ensures
        first_occurrence(text, pattern) is Some,
        0 <= first_occurrence(text, pattern)->0 <= at,
        is_first_occurrence(text, pattern, first_occurrence(text, pattern)->0),
    decreases at,
{
    if forall|i: int| 0 <= i < at ==> !occurs_at(text, pattern, i) {
        lemma_first_occurrence_is(text, pattern, at);
    } else {
        let earlier = choose|i: int| 0 <= i < at && occurs_at(text, pattern, i);
        lemma_leftmost_exists(text, pattern, earlier);
    }
}

/// `first_occurrence` gives `None` exactly where the pattern does not occur.
pub proof fn lemma_first_occurrence_none(text: Seq<char>, pattern: Seq<char>)
    ensures
        first_occurrence(text, pattern) is None <==> !occurs_in(text, pattern),
        first_occurrence(text, pattern) matches Some(at) ==> is_first_occurrence(
            text,
            pattern,
            at,
        ),
{
    if occurs_in(text, pattern) {
        let at = choose|at: int| occurs_at(text, pattern, at);
        lemma_leftmost_exists(text, pattern, at);
    }
    if first_occurrence(text, pattern) is Some {
        let at = first_occurrence(text, pattern)->0;
        assert(is_first_occurrence(text, pattern, at));
        assert(occurs_at(text, pattern, at));
    }
}

/// An occurrence in what follows the first `from` characters is an occurrence in the
/// whole text, `from` places further on, and the other way round.
pub proof fn lemma_occurs_in_suffix(text: Seq<char>, pattern: Seq<char>, from: int, at: int)
    requires
        0 <= from <= text.len(),
        0 <= at,
    ensures
        occurs_at(text.skip(from), pattern, at) <==> occurs_at(text, pattern, from + at),
{
    if at + pattern.len() <= text.len() - from {
        assert(text.skip(from).subrange(at, at + pattern.len()) =~= text.subrange(
            from + at,
            from + at + pattern.len(),
        ));
    }
}

/// An occurrence in the first `upto` characters is an occurrence in the whole text.
pub proof fn lemma_occurs_in_prefix(text: Seq<char>, pattern: Seq<char>, upto: int, at: int)
    requires
        0 <= upto <= text.len(),
        0 <= at,
        at + pattern.len() <= upto,
    ensures
        occurs_at(text.take(upto), pattern, at) <==> occurs_at(text, pattern, at),
{
    assert(text.take(upto).subrange(at, at + pattern.len()) =~= text.subrange(
        at,
        at + pattern.len(),
    ));
}

/// The characters of a string, in order.
pub fn chars_of(s: &str) -> (chars: Vec<char>)
    ensures
        chars@ == s@,
{
    let mut chars: Vec<char> = Vec::new();
    for c in it: s.chars()
        invariant
            it.seq() == s@,
            chars@ == it.seq().take(it.index() as int),
    {
        chars.push(c);
    }
    chars
}

/// Tests whether `pattern` lies in `text` at index `at`.
pub fn matches_at(text: &Vec<char>, pattern: &Vec<char>, at: usize) -> (found: bool)
    ensures
        found == occurs_at(text@, pattern@, at as int),
{
    if pattern.len() > text.len() || at > text.len() - pattern.len() {
        return false;
    }
    let mut k: usize = 0;
    while k < pattern.len()
        invariant
            k <= pattern.len(),
            at + pattern.len() <= text.len(),
            forall|j: int| 0 <= j < k ==> text@[at + j] == pattern@[j],
        decreases pattern.len() - k,
    {
        if text[at + k] != pattern[k] {
            proof {
                let part = text@.subrange(at as int, at + pattern.len());
                assert(part[k as int] == text@[at + k]);
            }
            return false;
        }
        k += 1;
    }
    assert(text@.subrange(at as int, at + pattern.len()) =~= pattern@);
    true
}

/// Finds the leftmost occurrence of `pattern` in `text` that starts at index `from` or
/// later. Past the end of the text nothing is found.
pub fn find_from(text: &Vec<char>, pattern: &Vec<char>, from: usize) -> (found: Option<usize>)
    ensures
        from <= text.len() ==> match first_occurrence(text@.skip(from as int), pattern@) {
            Some(offset) => found == Some((from + offset) as usize) && from + offset
                + pattern.len() <= text.len(),
            None => found is None,
        },
        from > text.len() ==> found is None,
{
    if from > text.len() {
        return None;
    }
    let mut at: usize = from;
    loop
        invariant
            from <= at <= text.len(),
            forall|i: int| from <= i < at ==> !occurs_at(text@, pattern@, i),
        decreases text.len() - at,
    {
        if matches_at(text, pattern, at) {
            proof {
                let rest = text@.skip(from as int);
                lemma_occurs_in_suffix(text@, pattern@, from as int, at - from);
                assert forall|i: int| 0 <= i < at - from implies !occurs_at(rest, pattern@, i) by {
                    lemma_occurs_in_suffix(text@, pattern@, from as int, i);
                }
                lemma_first_occurrence_is(rest, pattern@, at - from);
            }
            return Some(at);
        }
        if at == text.len() {
            proof {
                let rest = text@.skip(from as int);
                assert forall|i: int| !occurs_at(rest, pattern@, i) by {
                    if 0 <= i {
                        lemma_occurs_in_suffix(text@, pattern@, from as int, i);
                    }
                }
                lemma_first_occurrence_none(rest, pattern@);
            }
            return None;
        }
        at += 1;
    }
}

/// Tests whether the character `wanted` stands in `text` at an index from `from` up to,
/// not including, `to`. A range that does not lie in the text holds nothing.
pub fn holds_char(text: &Vec<char>, from: usize, to: usize, wanted: char) -> (found: bool)
    ensures
        found == (from <= to <= text.len() && text@.subrange(from as int, to as int).contains(
            wanted,
        )),
{
    if from > to || to > text.len() {
        return false;
    }
    let ghost part = text@.subrange(from as int, to as int);
    let mut at: usize = from;
    while at < to
        invariant
            from <= at <= to <= text.len(),
            part == text@.subrange(from as int, to as int),
            forall|i: int| 0 <= i < at - from ==> part[i] != wanted,
        decreases to - at,
    {
        if text[at] == wanted {
            assert(part[at - from] == wanted);
            return true;
        }
        at += 1;
    }
    false
}

/// The character that stands for a digit.
pub open spec fn digit(value: int) -> char {
    if value == 0 {
        '0'
    } else if value == 1 {
        '1'
    } else if value == 2 {
        '2'
    } else if value == 3 {
        '3'
    } else if value == 4 {
        '4'
    } else if value == 5 {
        '5'
    } else if value == 6 {
        '6'
    } else if value == 7 {
        '7'
    } else if value == 8 {
        '8'
    } else {
        '9'
    }
}

/// A natural number written in decimal, without leading zeros.
pub open spec fn decimal_text(value: nat) -> Seq<char>
    decreases value,
{
    if value < 10 {
        seq![digit(value as int)]
    } else {
        decimal_text(value / 10).push(digit((value % 10) as int))
    }
}

fn digit_text(value: usize) -> (text: &'static str)
    requires
        value < 10,
    ensures
        text@ == seq![digit(value as int)],
{
    proof {
        reveal_strlit("0");
        reveal_strlit("1");
        reveal_strlit("2");
        reveal_strlit("3");
        reveal_strlit("4");
        reveal_strlit("5");
        reveal_strlit("6");
        reveal_strlit("7");
        reveal_strlit("8");
        reveal_strlit("9");
    }
    let text = if value == 0 {
        "0"
    } else if value == 1 {
        "1"
    } else if value == 2 {
        "2"
    } else if value == 3 {
        "3"
    } else if value == 4 {
        "4"
    } else if value == 5 {
        "5"
    } else if value == 6 {
        "6"
    } else if value == 7 {
        "7"
    } else if value == 8 {
        "8"
    } else {
        "9"
    };
    assert(text@ =~= seq![digit(value as int)]);
    text
}

/// Writes a number in decimal.
pub fn decimal(value: usize) -> (text: String)
    ensures
        text@ == decimal_text(value as nat),
    decreases value,
{
    if value < 10 {
        digit_text(value).to_owned()
    } else {
        let mut text = decimal(value / 10);
        text.append(digit_text(value % 10));
        assert(text@ =~= decimal_text(value as nat));
        text
    }
}

} // verus!
