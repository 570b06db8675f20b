//! The mathematical model of the cipher: what filtering, rotation, key
//! expansion, encryption and decryption mean on sequences of characters.

use crate::error::ConfigurationError;
use vstd::prelude::*;

verus! {

/// The characters of `text` that occur in `alphabet`, in the order and with
/// the repetitions that they have in `text`.
pub open spec fn retained(alphabet: Seq<char>, text: Seq<char>) -> Seq<char> {
    text.filter(|c: char| alphabet.contains(c))
}

/// Every character of `text` occurs in `alphabet`.
pub open spec fn within(alphabet: Seq<char>, text: Seq<char>) -> bool {
    forall|i: int| 0 <= i < text.len() ==> alphabet.contains(#[trigger] text[i])
}

/// An alphabet and a key that an engine can work with: the alphabet names
/// each symbol once, and the key is a non-empty word over it.
pub open spec fn valid_engine(alphabet: Seq<char>, key: Seq<char>) -> bool {
    &&& alphabet.no_duplicates()
    &&& key.len() > 0
    &&& within(alphabet, key)
}

/// Why no engine can be built from `alphabet` and the key string `key`,
/// if none can: an alphabet that names a symbol twice is refused, and so is,
/// with a sound alphabet, a key string without any character of it.
pub open spec fn rejection(alphabet: Seq<char>, key: Seq<char>) -> Option<ConfigurationError> {
    if !alphabet.no_duplicates() {
        Some(ConfigurationError::DuplicateSymbol)
    } else if retained(alphabet, key).len() == 0 {
        Some(ConfigurationError::EmptyKey)
    } else {
        None
    }
}

/// The alphabet rotated to the left so that it starts at `start` and wraps
/// around to the symbol just before it.
pub open spec fn rotation(alphabet: Seq<char>, start: char) -> Seq<char> {
    let i = alphabet.index_of(start);
    alphabet.subrange(i, alphabet.len() as int) + alphabet.subrange(0, i)
}

/// `count` copies of `key`, end to end.
pub open spec fn repeated(key: Seq<char>, count: nat) -> Seq<char>
    decreases count,
{
    if count == 0 {
        Seq::empty()
    } else {
        repeated(key, (count - 1) as nat) + key
    }
}

/// The key repeated a whole number of times, as few as make it longer than
/// `text_length`.
pub open spec fn expanded_key(key: Seq<char>, text_length: nat) -> Seq<char> {
    repeated(key, text_length / key.len() + 1)
}

/// The cipher symbol for the plain symbol `c` under the key symbol `k`: the
/// symbol at `c`'s alphabet index in the alphabet rotated to `k`.
pub open spec fn encrypted_symbol(alphabet: Seq<char>, k: char, c: char) -> char {
    rotation(alphabet, k)[alphabet.index_of(c)]
}

/// The plain symbol for the cipher symbol `c` under the key symbol `k`: the
/// alphabet symbol at `c`'s index in the alphabet rotated to `k`.
pub open spec fn decrypted_symbol(alphabet: Seq<char>, k: char, c: char) -> char {
    alphabet[rotation(alphabet, k).index_of(c)]
}

/// The ciphertext of `text`: its alphabet characters, each substituted under
/// the key symbol at the same position of the expanded key.
pub open spec fn encrypted(alphabet: Seq<char>, key: Seq<char>, text: Seq<char>) -> Seq<char> {
    let symbols = retained(alphabet, text);
    let stream = expanded_key(key, symbols.len());
    Seq::new(symbols.len(), |p: int| encrypted_symbol(alphabet, stream[p], symbols[p]))
}

/// The plaintext of `text`: its alphabet characters, each substituted back
/// under the key symbol at the same position of the expanded key.
pub open spec fn decrypted(alphabet: Seq<char>, key: Seq<char>, text: Seq<char>) -> Seq<char> {
    let symbols = retained(alphabet, text);
    let stream = expanded_key(key, symbols.len());
    Seq::new(symbols.len(), |p: int| decrypted_symbol(alphabet, stream[p], symbols[p]))
}

/// The rotation table of a key: one entry for each distinct key symbol, found
/// under the symbol's code point, holding the alphabet rotated to that symbol.
pub open spec fn rotation_table(alphabet: Seq<char>, key: Seq<char>) -> Map<u32, Seq<char>> {
    Map::new(
        |code: u32| exists|i: int| 0 <= i < key.len() && #[trigger] key[i] as u32 == code,
        |code: u32| rotation(alphabet, code as char),
    )
}

} // verus!
