//! Executable helpers on characters and strings, and what is taken on trust
//! of the standard library.

use vstd::prelude::*;

verus! {

/// Position of the first occurrence of `c` among `symbols`, if there is one.
pub fn position(symbols: &Vec<char>, c: char) -> (found: Option<usize>)
    ensures
        match found {
            Some(i) => i < symbols@.len() && symbols@[i as int] == c && forall|j: int|
                0 <= j < i ==> symbols@[j] != c,
            None => !symbols@.contains(c),
        },
{
    let mut i: usize = 0;
    while i < symbols.len()
        invariant
            i <= symbols@.len(),
            forall|j: int| 0 <= j < i ==> symbols@[j] != c,
        decreases symbols@.len() - i,
    {
        if symbols[i] == c {
            return Some(i);
        }
        i += 1;
    }
    None
}

/// Whether some character occurs more than once among `symbols`.
pub fn has_duplicates(symbols: &Vec<char>) -> (found: bool)
    ensures
        found == !symbols@.no_duplicates(),
{
    let mut i: usize = 0;
    while i < symbols.len()
        invariant
            i <= symbols@.len(),
            forall|a: int, b: int| 0 <= a < b < i ==> symbols@[a] != symbols@[b],
        decreases symbols@.len() - i,
    {
        match position(symbols, symbols[i]) {
            Some(first) => {
                if first < i {
                    return true;
                }
            },
            None => {
                // The character at `i` occurs at `i`, so it is always found.
                assert(symbols@.contains(symbols@[i as int]));
            },
        }
        i += 1;
    }
    false
}

/// The characters of `text`, one by one.
pub fn characters(text: &str) -> (out: Vec<char>)
    ensures
        out@ == text@,
{
    let mut out: Vec<char> = Vec::new();
    for c in it: text.chars()
        invariant
            out@ == it.seq().take(it.index()),
            it.seq() == text@,
    {
        out.push(c);
    }
    out
}

/// `String::push` of the standard library: the string afterwards is the
/// string before with `c` as one more character at its end.
pub assume_specification[ String::push ](text: &mut String, c: char)
    ensures
        final(text)@ == old(text)@.push(c),
;

} // verus!
