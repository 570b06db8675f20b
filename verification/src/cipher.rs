//! The cipher engine: an alphabet, a key over it, and the table of the
//! alphabet's rotations that the key calls for.

use crate::error::ConfigurationError;
use crate::laws::{
    lemma_decrypted_stays_in_alphabet, lemma_encrypted_stays_in_alphabet,
    lemma_expanded_key_covers, lemma_index_of_unique, lemma_retained_empty,
    lemma_retained_is_ordered_selection, lemma_retained_push, lemma_rotation_index,
    lemma_rotation_is_permutation, lemma_rotation_table_empty, lemma_rotation_table_entries,
    lemma_rotation_table_grows,
};
use crate::model::{
    decrypted, encrypted, expanded_key, rejection, repeated, retained, rotation, rotation_table,
    valid_engine, within,
};
use crate::symbols::{characters, has_duplicates, position};
use std::collections::HashMap;
use vstd::arithmetic::div_mod::lemma_fundamental_div_mod_converse;
use vstd::prelude::*;
use vstd::slice::slice_to_vec;

verus! {

/// What a rotation table holds, each rotation as a sequence of characters.
pub open spec fn table_view(table: Map<u32, Vec<char>>) -> Map<u32, Seq<char>> {
    Map::new(|code: u32| table.contains_key(code), |code: u32| table[code]@)
}

/// A cipher engine. Its alphabet names each symbol once, its key is a
/// non-empty word over the alphabet, and its table holds, for each distinct
/// key symbol, the alphabet rotated to that symbol.
#[derive(Debug, PartialEq)]
pub struct Vigenere {
    alphabet: Vec<char>,
    key: Vec<char>,
    shifted_alphabet: HashMap<u32, Vec<char>>,
}

impl Vigenere {
    #[verifier::type_invariant]
    spec fn well_formed(&self) -> bool {
        &&& valid_engine(self.alphabet@, self.key@)
        &&& table_view(self.shifted_alphabet@) == rotation_table(self.alphabet@, self.key@)
    }

    /// The engine's alphabet.
    pub closed spec fn alphabet_view(&self) -> Seq<char> {
        self.alphabet@
    }

    /// The engine's key: the key string's characters that the alphabet holds.
    pub closed spec fn key_view(&self) -> Seq<char> {
        self.key@
    }

    /// The engine's rotation table: for each distinct symbol of its key,
    /// under the symbol's code point, the alphabet rotated to that symbol.
    pub closed spec fn rotations_view(&self) -> Map<u32, Seq<char>> {
        table_view(self.shifted_alphabet@)
    }

    /// The alphabet of an engine that was given none: the lower-case Latin
    /// letters.
    pub const ALPHABET_ASCII: &'static str = "abcdefghijklmnopqrstuvwxyz";

    /// The alphabet that an engine works with when it is built with
    /// `alphabet`: the characters of the string in their order, or those of
    /// the default alphabet where there is no string.
    pub open spec fn working_alphabet(alphabet: Option<&str>) -> Seq<char> {
        match alphabet {
            Some(symbols) => symbols@,
            None => Self::ALPHABET_ASCII@,
        }
    }

    /// What building an engine from the key string `key` over `alphabet`
    /// comes to: where nothing is refused, an engine with that alphabet whose
    /// key is what the alphabet holds of the key string, with the rotation
    /// table of that key; else the error that says what was refused.
    pub open spec fn made_from(
        made: Result<Vigenere, ConfigurationError>,
        key: Seq<char>,
        alphabet: Seq<char>,
    ) -> bool {
        match made {
            Ok(engine) => {
                &&& rejection(alphabet, key) is None
                &&& engine.alphabet_view() == alphabet
                &&& engine.key_view() == retained(alphabet, key)
                &&& engine.rotations_view() == rotation_table(alphabet, retained(alphabet, key))
            },
            Err(error) => rejection(alphabet, key) == Some(error),
        }
    }

    /// An engine for the key string `key` over `alphabet`, or over the
    /// default alphabet where none is given. The engine's key is what is left
    /// of the key string when the characters outside the alphabet are dropped.
    ///
    /// An alphabet that names a symbol more than once is refused, and so is a
    /// key string of which nothing is left.
    pub fn new(key: &str, alphabet: Option<&str>) -> (made: Result<Vigenere, ConfigurationError>)
        ensures
            Self::made_from(made, key@, Self::working_alphabet(alphabet)),
            made matches Ok(engine) ==> valid_engine(engine.alphabet_view(), engine.key_view()),
    {
        let alphabet_characters = match alphabet {
            Some(symbols) => characters(symbols),
            None => characters(Self::ALPHABET_ASCII),
        };
        if has_duplicates(&alphabet_characters) {
            return Err(ConfigurationError::DuplicateSymbol);
        }
        let key_characters = Self::filter_characters(&alphabet_characters, key);
        if key_characters.len() == 0 {
            return Err(ConfigurationError::EmptyKey);
        }
        let shifted_alphabet = Self::shift_alphabet(&alphabet_characters, &key_characters);
        Ok(Vigenere { alphabet: alphabet_characters, key: key_characters, shifted_alphabet })
    }

    /// The engine's alphabet, symbol by symbol. No symbol occurs twice.
    pub fn alphabet(&self) -> (symbols: &Vec<char>)
        ensures
            symbols@ == self.alphabet_view(),
            symbols@.no_duplicates(),
    {
        proof {
            use_type_invariant(self);
        }
        &self.alphabet
    }

    /// The engine's key, symbol by symbol: a non-empty word over the
    /// alphabet.
    pub fn key(&self) -> (symbols: &Vec<char>)
        ensures
            symbols@ == self.key_view(),
            valid_engine(self.alphabet_view(), symbols@),
    {
        proof {
            use_type_invariant(self);
        }
        &self.key
    }

    /// The alphabet rotated to the key symbol `k`, as the table holds it.
    fn rotated(&self, k: char) -> (found: Option<&Vec<char>>)
        ensures
            found is Some <==> self.key_view().contains(k),
            found matches Some(shifted) ==> shifted@ == rotation(self.alphabet_view(), k),
    {
        proof {
            use_type_invariant(self);
            lemma_rotation_table_entries(self.alphabet@, self.key@, k);
            assert(table_view(self.shifted_alphabet@).contains_key(k as u32)
                == self.shifted_alphabet@.contains_key(k as u32));
        }
        let found = self.shifted_alphabet.get(&(k as u32));
        proof {
            if let Some(shifted) = found {
                assert(table_view(self.shifted_alphabet@)[k as u32] == shifted@);
            }
        }
        found
    }

    /// The ciphertext of `text`. Characters outside the alphabet are left
    /// out; each character of the alphabet is replaced by the one at its
    /// alphabet index in the alphabet rotated to the key symbol of its
    /// position.
    ///
    /// Positions count the characters kept, and the key is expanded for
    /// their number, not for the length of `text`.
    pub fn encrypt(&self, text: &str) -> (ciphertext: String)
        ensures
            ciphertext@ == encrypted(self.alphabet_view(), self.key_view(), text@),
            ciphertext@.len() == retained(self.alphabet_view(), text@).len(),
            within(self.alphabet_view(), ciphertext@),
    {
        let text_characters = Self::filter_characters(&self.alphabet, text);
        let enlarged_key = self.enlarge_key(text_characters.len());
        let mut ciphertext = String::new();
        let ghost target = encrypted(self.alphabet@, self.key@, text@);
        proof {
            use_type_invariant(self);
            lemma_expanded_key_covers(self.key@, text_characters@.len());
            assert(ciphertext@ =~= target.take(0));
        }
        for pos in 0..text_characters.len()
            invariant
                valid_engine(self.alphabet@, self.key@),
                text_characters@ == retained(self.alphabet@, text@),
                within(self.alphabet@, text_characters@),
                enlarged_key@ == expanded_key(self.key@, text_characters@.len()),
                enlarged_key@.len() > text_characters@.len(),
                forall|p: int|
                    0 <= p < enlarged_key@.len() ==> #[trigger] enlarged_key@[p] == self.key@[p % (
                    self.key@.len() as int)],
                target == encrypted(self.alphabet@, self.key@, text@),
                ciphertext@ == target.take(pos as int),
        {
            let c = text_characters[pos];
            let k = enlarged_key[pos];
            proof {
                assert(k == self.key@[pos as int % (self.key@.len() as int)]);
                assert(self.key@.contains(k));
                assert(self.alphabet@.contains(text_characters@[pos as int]));
                lemma_rotation_is_permutation(self.alphabet@, k);
            }
            // Both lookups are proved to succeed; nothing is unwrapped.
            if let Some(alphabet_for_key) = self.rotated(k) {
                if let Some(index) = position(&self.alphabet, c) {
                    proof {
                        lemma_index_of_unique(self.alphabet@, index as int);
                    }
                    ciphertext.push(alphabet_for_key[index]);
                }
            }
            proof {
                assert(target.take(pos as int).push(target[pos as int]) =~= target.take(pos + 1));
            }
        }
        proof {
            assert(target.take(target.len() as int) =~= target);
            lemma_encrypted_stays_in_alphabet(self.alphabet@, self.key@, text@);
        }
        ciphertext
    }

    /// The plaintext of `text`. Characters outside the alphabet are left out;
    /// each character of the alphabet is replaced by the alphabet symbol at
    /// the index that the character has in the alphabet rotated to the key
    /// symbol of its position.
    ///
    /// Positions count the characters kept, and the key is expanded for
    /// their number, not for the length of `text`.
    pub fn decrypt(&self, text: &str) -> (plaintext: String)
        ensures
            plaintext@ == decrypted(self.alphabet_view(), self.key_view(), text@),
            plaintext@.len() == retained(self.alphabet_view(), text@).len(),
            within(self.alphabet_view(), plaintext@),
    {
        let text_characters = Self::filter_characters(&self.alphabet, text);
        let enlarged_key = self.enlarge_key(text_characters.len());
        let mut plaintext = String::new();
        let ghost target = decrypted(self.alphabet@, self.key@, text@);
        proof {
            use_type_invariant(self);
            lemma_expanded_key_covers(self.key@, text_characters@.len());
            assert(plaintext@ =~= target.take(0));
        }
        for pos in 0..text_characters.len()
            invariant
                valid_engine(self.alphabet@, self.key@),
                text_characters@ == retained(self.alphabet@, text@),
                within(self.alphabet@, text_characters@),
                enlarged_key@ == expanded_key(self.key@, text_characters@.len()),
                enlarged_key@.len() > text_characters@.len(),
                forall|p: int|
                    0 <= p < enlarged_key@.len() ==> #[trigger] enlarged_key@[p] == self.key@[p % (
                    self.key@.len() as int)],
                target == decrypted(self.alphabet@, self.key@, text@),
                plaintext@ == target.take(pos as int),
        {
            let c = text_characters[pos];
            let k = enlarged_key[pos];
            proof {
                assert(k == self.key@[pos as int % (self.key@.len() as int)]);
                assert(self.key@.contains(k));
                assert(self.alphabet@.contains(text_characters@[pos as int]));
                lemma_rotation_is_permutation(self.alphabet@, k);
                lemma_rotation_index(self.alphabet@, k, c);
            }
            // Both lookups are proved to succeed; nothing is unwrapped.
            if let Some(alphabet_for_key) = self.rotated(k) {
                if let Some(index) = position(alphabet_for_key, c) {
                    proof {
                        lemma_index_of_unique(alphabet_for_key@, index as int);
                    }
                    plaintext.push(self.alphabet[index]);
                }
            }
            proof {
                assert(target.take(pos as int).push(target[pos as int]) =~= target.take(pos + 1));
            }
        }
        proof {
            assert(target.take(target.len() as int) =~= target);
            lemma_decrypted_stays_in_alphabet(self.alphabet@, self.key@, text@);
        }
        plaintext
    }

    /// The characters of `text` that `alphabet` holds, in the order and with
    /// the repetitions that they have in `text`.
    pub fn filter_characters(alphabet: &Vec<char>, text: &str) -> (kept: Vec<char>)
        ensures
            kept@ == retained(alphabet@, text@),
            within(alphabet@, kept@),
    {
        let mut kept: Vec<char> = Vec::new();
        proof {
            lemma_retained_empty(alphabet@);
        }
        for c in it: text.chars()
            invariant
                it.seq() == text@,
                kept@ == retained(alphabet@, it.seq().take(it.index())),
        {
            proof {
                lemma_retained_push(alphabet@, it.seq().take(it.index()), c);
                assert(it.seq().take(it.index()).push(c) =~= it.seq().take(it.index() + 1));
            }
            if position(alphabet, c).is_some() {
                kept.push(c);
            }
        }
        proof {
            assert(text@.take(text@.len() as int) =~= text@);
            lemma_retained_is_ordered_selection(alphabet@, text@, Seq::empty());
        }
        kept
    }

    /// The key repeated whole, as few times as make it longer than
    /// `text_length`.
    pub fn enlarge_key(&self, text_length: usize) -> (enlarged: Vec<char>)
        ensures
            enlarged@ == expanded_key(self.key_view(), text_length as nat),
            enlarged@.len() > text_length,
            enlarged@.len() % self.key_view().len() == 0,
    {
        proof {
            use_type_invariant(self);
        }
        let key_length = self.key.len();
        let mut enlarged: Vec<char> = Vec::new();
        let ghost mut copies: nat = 0;
        while enlarged.len() <= text_length
            invariant
                key_length == self.key@.len(),
                key_length > 0,
                enlarged@ == repeated(self.key@, copies),
                enlarged@.len() == copies * key_length,
                copies > 0 ==> (copies - 1) * key_length <= text_length,
            decreases text_length + key_length - enlarged@.len(),
        {
            let mut i: usize = 0;
            let ghost before = enlarged@;
            while i < key_length
                invariant
                    i <= key_length,
                    key_length == self.key@.len(),
                    enlarged@ == before + self.key@.take(i as int),
                decreases key_length - i,
            {
                enlarged.push(self.key[i]);
                proof {
                    assert(self.key@.take(i as int).push(self.key@[i as int]) =~= self.key@.take(
                        i + 1,
                    ));
                }
                i += 1;
            }
            proof {
                assert(self.key@.take(key_length as int) =~= self.key@);
                assert((copies + 1) * key_length == copies * key_length + key_length)
                    by (nonlinear_arith);
                copies = copies + 1;
            }
        }
        proof {
            assert(copies > 0) by {
                if copies == 0 {
                    assert(copies * key_length == 0) by (nonlinear_arith)
                        requires
                            copies == 0,
                    ;
                }
            }
            assert(copies * key_length == (copies - 1) * key_length + key_length)
                by (nonlinear_arith);
            lemma_fundamental_div_mod_converse(
                text_length as int,
                key_length as int,
                copies - 1,
                text_length - (copies - 1) * key_length,
            );
            lemma_expanded_key_covers(self.key@, text_length as nat);
        }
        enlarged
    }

    /// The rotation table of `key` over `alphabet`: for each distinct key
    /// symbol, under its code point, the alphabet rotated to the left so that
    /// it starts at that symbol.
    pub fn shift_alphabet(alphabet: &Vec<char>, key: &Vec<char>) -> (shifted_alphabet: HashMap<
        u32,
        Vec<char>,
    >)
        requires
            alphabet@.no_duplicates(),
            within(alphabet@, key@),
        ensures
            table_view(shifted_alphabet@) == rotation_table(alphabet@, key@),
    {
        let mut shifted_alphabet: HashMap<u32, Vec<char>> = HashMap::new();
        proof {
            lemma_rotation_table_empty(alphabet@);
            assert(key@.take(0) =~= Seq::empty());
            assert(table_view(shifted_alphabet@) =~= rotation_table(alphabet@, key@.take(0)));
        }
        for j in 0..key.len()
            invariant
                alphabet@.no_duplicates(),
                within(alphabet@, key@),
                table_view(shifted_alphabet@) == rotation_table(alphabet@, key@.take(j as int)),
        {
            let c = key[j];
            proof {
                lemma_rotation_table_grows(alphabet@, key@.take(j as int), c);
                assert(key@.take(j as int).push(c) =~= key@.take(j + 1));
                assert(alphabet@.contains(key@[j as int]));
            }
            if !shifted_alphabet.contains_key(&(c as u32)) {
                if let Some(start) = position(alphabet, c) {
                    let split = alphabet.as_slice().split_at(start);
                    let mut tail = slice_to_vec(split.1);
                    let mut head = slice_to_vec(split.0);
                    let mut shift_vec: Vec<char> = Vec::new();
                    shift_vec.append(&mut tail);
                    shift_vec.append(&mut head);
                    proof {
                        lemma_index_of_unique(alphabet@, start as int);
                        assert(shift_vec@ =~= rotation(alphabet@, c));
                    }
                    let ghost before = shifted_alphabet@;
                    shifted_alphabet.insert(c as u32, shift_vec);
                    assert(table_view(shifted_alphabet@) =~= table_view(before).insert(
                        c as u32,
                        rotation(alphabet@, c),
                    ));
                }
            }
        }
        assert(key@.take(key@.len() as int) =~= key@);
        shifted_alphabet
    }
}

impl Clone for Vigenere {
    /// A second engine with the same alphabet and the same key.
    fn clone(&self) -> (copy: Self)
        ensures
            copy.alphabet_view() == self.alphabet_view(),
            copy.key_view() == self.key_view(),
            copy.rotations_view() == self.rotations_view(),
    {
        proof {
            use_type_invariant(self);
        }
        let alphabet = self.alphabet.clone();
        let key = self.key.clone();
        let shifted_alphabet = self.shifted_alphabet.clone();
        assert(alphabet@ == self.alphabet@);
        assert(key@ == self.key@);
        Vigenere { alphabet, key, shifted_alphabet }
    }
}

/// The default alphabet has twenty-six symbols and names none twice, so no
/// engine without an alphabet of its own is refused for a duplicate symbol.
pub proof fn lemma_default_alphabet_is_sound(key: Seq<char>)
    ensures
        Vigenere::ALPHABET_ASCII@.len() == 26,
        Vigenere::ALPHABET_ASCII@.no_duplicates(),
        rejection(Vigenere::working_alphabet(None), key) != Some(
            ConfigurationError::DuplicateSymbol,
        ),
{
    reveal_strlit("abcdefghijklmnopqrstuvwxyz");
}

/// Building is a function of its inputs: when an engine is built twice from
/// the same key string and the same alphabet, either both are refused, for
/// the same reason, or both engines have the same alphabet, key and rotation
/// table, and give the same ciphertext and the same plaintext for every text.
pub proof fn lemma_same_inputs_same_engine(
    first: Result<Vigenere, ConfigurationError>,
    second: Result<Vigenere, ConfigurationError>,
    key: Seq<char>,
    alphabet: Seq<char>,
)
    requires
        Vigenere::made_from(first, key, alphabet),
        Vigenere::made_from(second, key, alphabet),
    ensures
        first is Ok <==> second is Ok,
        first is Err ==> first->Err_0 == second->Err_0,
        first is Ok ==> {
            &&& first->Ok_0.alphabet_view() == second->Ok_0.alphabet_view()
            &&& first->Ok_0.key_view() == second->Ok_0.key_view()
            &&& first->Ok_0.rotations_view() == second->Ok_0.rotations_view()
            &&& forall|text: Seq<char>| #[trigger]
                encrypted(first->Ok_0.alphabet_view(), first->Ok_0.key_view(), text) == encrypted(
                    second->Ok_0.alphabet_view(),
                    second->Ok_0.key_view(),
                    text,
                )
            &&& forall|text: Seq<char>| #[trigger]
                decrypted(first->Ok_0.alphabet_view(), first->Ok_0.key_view(), text) == decrypted(
                    second->Ok_0.alphabet_view(),
                    second->Ok_0.key_view(),
                    text,
                )
        },
{
}

} // verus!
