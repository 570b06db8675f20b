//! What holds of the model: facts about filtering, rotation and key
//! expansion, and the laws of the cipher that follow from them.

use crate::model::{
    decrypted, decrypted_symbol, encrypted, encrypted_symbol, expanded_key, rejection, repeated,
    retained, rotation, rotation_table, valid_engine, within,
};
use vstd::arithmetic::div_mod::{lemma_fundamental_div_mod, lemma_fundamental_div_mod_converse};
use vstd::prelude::*;

verus! {

/// Filtering goes through a text character by character: a character of the
/// alphabet is kept at the end of what was kept so far, any other is dropped.
pub proof fn lemma_retained_push(alphabet: Seq<char>, text: Seq<char>, c: char)
    ensures
        retained(alphabet, text.push(c)) == if alphabet.contains(c) {
            retained(alphabet, text).push(c)
        } else {
            retained(alphabet, text)
        },
{
    reveal(Seq::filter);
    assert(text.push(c).drop_last() =~= text);
}

/// Nothing is kept of an empty text.
pub proof fn lemma_retained_empty(alphabet: Seq<char>)
    ensures
        retained(alphabet, Seq::empty()) == Seq::<char>::empty(),
{
    reveal(Seq::filter);
}

/// Filtering keeps only characters of the alphabet, keeps every character of
/// the text that the alphabet holds, and keeps the order: what is kept of two
/// texts, one after the other, is what is kept of the first followed by what
/// is kept of the second.
pub proof fn lemma_retained_is_ordered_selection(
    alphabet: Seq<char>,
    text: Seq<char>,
    more: Seq<char>,
)
    ensures
        within(alphabet, retained(alphabet, text)),
        retained(alphabet, text).len() <= text.len(),
        forall|i: int|
            0 <= i < text.len() && alphabet.contains(text[i]) ==> retained(alphabet, text).contains(
                #[trigger] text[i],
            ),
        retained(alphabet, text + more) == retained(alphabet, text) + retained(alphabet, more),
{
    let keep = |c: char| alphabet.contains(c);
    text.lemma_filter_len(keep);
    assert forall|i: int| 0 <= i < text.len() && alphabet.contains(text[i]) implies retained(
        alphabet,
        text,
    ).contains(#[trigger] text[i]) by {
        text.lemma_filter_contains(keep, i);
    }
    assert forall|i: int| 0 <= i < retained(alphabet, text).len() implies alphabet.contains(
        #[trigger] retained(alphabet, text)[i],
    ) by {
        text.lemma_filter_pred(keep, i);
    }
    Seq::filter_distributes_over_add(text, more, keep);
}

/// A text over the alphabet passes the filter unchanged.
pub proof fn lemma_retained_identity(alphabet: Seq<char>, text: Seq<char>)
    requires
        within(alphabet, text),
    ensures
        retained(alphabet, text) == text,
    decreases text.len(),
{
    if text.len() == 0 {
        reveal(Seq::filter);
    } else {
        let front = text.drop_last();
        assert(within(alphabet, front)) by {
            assert forall|i: int| 0 <= i < front.len() implies alphabet.contains(
                #[trigger] front[i],
            ) by {
                assert(front[i] == text[i]);
            }
        }
        lemma_retained_identity(alphabet, front);
        assert(alphabet.contains(text[text.len() - 1]));
        assert(front.push(text.last()) =~= text);
        lemma_retained_push(alphabet, front, text.last());
    }
}

/// `count` copies of a key are `count` times as long as the key, and hold
/// at each position the key symbol at that position modulo the key's length.
pub proof fn lemma_repeated_is_cyclic(key: Seq<char>, count: nat)
    requires
        key.len() > 0,
    ensures
        repeated(key, count).len() == count * key.len(),
        forall|p: int|
            0 <= p < count * key.len() ==> #[trigger] repeated(key, count)[p] == key[p % (
            key.len() as int)],
    decreases count,
{
    let n = key.len() as int;
    if count == 0 {
        assert(count * n == 0) by (nonlinear_arith)
            requires
                count == 0,
        ;
    } else {
        let before = (count - 1) as nat;
        let front = repeated(key, before);
        lemma_repeated_is_cyclic(key, before);
        assert(count * n == before * n + n) by (nonlinear_arith)
            requires
                before == count - 1,
        ;
        assert(repeated(key, count) == front + key);
        assert(front.len() == before * n);
        assert forall|p: int| 0 <= p < count * n implies #[trigger] repeated(key, count)[p]
            == key[p % n] by {
            if p < before * n {
                assert((front + key)[p] == front[p]);
            } else {
                assert((front + key)[p] == key[p - before * n]);
                lemma_fundamental_div_mod_converse(p, n, before as int, p - before * n);
            }
        }
    }
}

/// The expanded key is made of whole copies of the key, is longer than the
/// text it was expanded for, by no more than one copy, and holds at each
/// position the key symbol at that position modulo the key's length.
pub proof fn lemma_expanded_key_covers(key: Seq<char>, text_length: nat)
    requires
        key.len() > 0,
    ensures
        expanded_key(key, text_length).len() == (text_length / key.len() + 1) * key.len(),
        expanded_key(key, text_length).len() % key.len() == 0,
        text_length < expanded_key(key, text_length).len() <= text_length + key.len(),
        forall|p: int|
            0 <= p < expanded_key(key, text_length).len() ==> #[trigger] expanded_key(
                key,
                text_length,
            )[p] == key[p % (key.len() as int)],
{
    let n = key.len() as int;
    let count = text_length / key.len() + 1;
    lemma_repeated_is_cyclic(key, count);
    lemma_fundamental_div_mod(text_length as int, n);
    assert(count * n == n * (text_length as int / n) + n) by (nonlinear_arith)
        requires
            count == text_length as int / n + 1,
    ;
    lemma_fundamental_div_mod_converse(count * n, n, count as int, 0);
}

/// Where no symbol occurs twice, each symbol is found at its own index.
pub proof fn lemma_index_of_unique(symbols: Seq<char>, i: int)
    requires
        symbols.no_duplicates(),
        0 <= i < symbols.len(),
    ensures
        symbols.index_of(symbols[i]) == i,
{
}

/// The alphabet rotated to one of its symbols is a permutation of the
/// alphabet: it is as long, starts at that symbol, holds at each index the
/// alphabet symbol that many places after the start, wrapping around, and so
/// holds each alphabet symbol once.
pub proof fn lemma_rotation_is_permutation(alphabet: Seq<char>, start: char)
    requires
        alphabet.no_duplicates(),
        alphabet.contains(start),
    ensures
        rotation(alphabet, start).len() == alphabet.len(),
        rotation(alphabet, start)[0] == start,
        forall|i: int|
            0 <= i < alphabet.len() ==> #[trigger] rotation(alphabet, start)[i] == alphabet[(
            alphabet.index_of(start) + i) % (alphabet.len() as int)],
        rotation(alphabet, start).no_duplicates(),
        rotation(alphabet, start).to_multiset() == alphabet.to_multiset(),
{
    let n = alphabet.len() as int;
    let s = alphabet.index_of(start);
    let rotated = rotation(alphabet, start);
    let tail = alphabet.subrange(s, n);
    let head = alphabet.subrange(0, s);
    assert forall|i: int| 0 <= i < n implies #[trigger] rotated[i] == alphabet[(s + i) % n] by {
        if s + i < n {
            lemma_fundamental_div_mod_converse(s + i, n, 0, s + i);
        } else {
            lemma_fundamental_div_mod_converse(s + i, n, 1, s + i - n);
        }
    }
    assert forall|i: int, j: int| 0 <= i < n && 0 <= j < n && i != j implies rotated[i]
        != rotated[j] by {
        let a = if s + i < n { s + i } else { s + i - n };
        let b = if s + j < n { s + j } else { s + j - n };
        assert(rotated[i] == alphabet[a]);
        assert(rotated[j] == alphabet[b]);
    }
    assert(rotated.to_multiset() == alphabet.to_multiset()) by {
        vstd::seq_lib::lemma_multiset_commutative(tail, head);
        vstd::seq_lib::lemma_multiset_commutative(head, tail);
        assert(head + tail =~= alphabet);
        assert(tail.to_multiset().add(head.to_multiset()) =~= head.to_multiset().add(
            tail.to_multiset(),
        ));
    }
}

/// The rotated alphabet holds exactly the symbols of the alphabet, and a
/// symbol's index in it is its alphabet index less the start's, wrapping
/// around.
pub proof fn lemma_rotation_index(alphabet: Seq<char>, start: char, c: char)
    requires
        alphabet.no_duplicates(),
        alphabet.contains(start),
        alphabet.contains(c),
    ensures
        rotation(alphabet, start).contains(c),
        rotation(alphabet, start).index_of(c) == (alphabet.index_of(c) - alphabet.index_of(start))
            % (alphabet.len() as int),
{
    let n = alphabet.len() as int;
    let s = alphabet.index_of(start);
    let i = alphabet.index_of(c);
    let rotated = rotation(alphabet, start);
    lemma_rotation_is_permutation(alphabet, start);
    let d = if i >= s { i - s } else { i - s + n };
    if i >= s {
        lemma_fundamental_div_mod_converse(i - s, n, 0, d);
        lemma_fundamental_div_mod_converse(s + d, n, 0, i);
    } else {
        lemma_fundamental_div_mod_converse(i - s, n, -1, d);
        lemma_fundamental_div_mod_converse(s + d, n, 1, i);
    }
    assert(rotated[d] == c);
    lemma_index_of_unique(rotated, d);
}

/// A code point names one character only.
pub proof fn lemma_code_point_names_one(a: char, b: char)
    requires
        a as u32 == b as u32,
    ensures
        a == b,
{
}

/// The rotation table of the empty key has no entry.
pub proof fn lemma_rotation_table_empty(alphabet: Seq<char>)
    ensures
        rotation_table(alphabet, Seq::empty()) == Map::<u32, Seq<char>>::empty(),
{
    assert(rotation_table(alphabet, Seq::empty()) =~= Map::<u32, Seq<char>>::empty());
}

/// The rotation table grows with the key symbol by symbol: a symbol seen
/// before leaves it as it is, a new symbol adds the alphabet rotated to it.
pub proof fn lemma_rotation_table_grows(alphabet: Seq<char>, key: Seq<char>, c: char)
    ensures
        rotation_table(alphabet, key.push(c)) == if rotation_table(alphabet, key).contains_key(
            c as u32,
        ) {
            rotation_table(alphabet, key)
        } else {
            rotation_table(alphabet, key).insert(c as u32, rotation(alphabet, c))
        },
{
    let table = rotation_table(alphabet, key);
    let longer = key.push(c);
    assert(longer[key.len() as int] as u32 == c as u32);
    assert forall|code: u32| #[trigger]
        rotation_table(alphabet, longer).contains_key(code) <==> (table.contains_key(code) || code
            == c as u32) by {
        if table.contains_key(code) {
            let i = choose|i: int| 0 <= i < key.len() && #[trigger] key[i] as u32 == code;
            assert(longer[i] as u32 == code);
        }
        if rotation_table(alphabet, longer).contains_key(code) {
            let i = choose|i: int| 0 <= i < longer.len() && #[trigger] longer[i] as u32 == code;
            if i < key.len() {
                assert(key[i] as u32 == code);
            }
        }
    }
    assert((c as u32) as char == c);
    if table.contains_key(c as u32) {
        assert(rotation_table(alphabet, longer) =~= table);
    } else {
        assert(rotation_table(alphabet, longer) =~= table.insert(
            c as u32,
            rotation(alphabet, c),
        ));
    }
}

/// The rotation table has an entry for a symbol exactly when the key holds
/// the symbol, and the entry is the alphabet rotated to that symbol.
pub proof fn lemma_rotation_table_entries(alphabet: Seq<char>, key: Seq<char>, c: char)
    ensures
        rotation_table(alphabet, key).contains_key(c as u32) <==> key.contains(c),
        key.contains(c) ==> rotation_table(alphabet, key)[c as u32] == rotation(alphabet, c),
{
    assert((c as u32) as char == c);
    if key.contains(c) {
        let i = choose|i: int| 0 <= i < key.len() && key[i] == c;
        assert(key[i] as u32 == c as u32);
    }
    if rotation_table(alphabet, key).contains_key(c as u32) {
        let i = choose|i: int| 0 <= i < key.len() && #[trigger] key[i] as u32 == c as u32;
        lemma_code_point_names_one(key[i], c);
    }
}

/// Substitution adds alphabet indices: the cipher symbol of `c` under `k`
/// is the alphabet symbol at the sum of their indices, wrapping around. It
/// is a symbol of the alphabet, and substituting back under `k` gives `c`.
pub proof fn lemma_encrypted_symbol(alphabet: Seq<char>, k: char, c: char)
    requires
        alphabet.no_duplicates(),
        alphabet.contains(k),
        alphabet.contains(c),
    ensures
        encrypted_symbol(alphabet, k, c) == alphabet[(alphabet.index_of(k) + alphabet.index_of(c))
            % (alphabet.len() as int)],
        alphabet.contains(encrypted_symbol(alphabet, k, c)),
        decrypted_symbol(alphabet, k, encrypted_symbol(alphabet, k, c)) == c,
{
    let n = alphabet.len() as int;
    let i = alphabet.index_of(c);
    let rotated = rotation(alphabet, k);
    lemma_rotation_is_permutation(alphabet, k);
    assert(rotated[i] == alphabet[(alphabet.index_of(k) + i) % n]);
    lemma_index_of_unique(rotated, i);
}

/// Substituting back subtracts alphabet indices: the plain symbol of `c`
/// under `k` is the alphabet symbol at the difference of their indices,
/// wrapping around. It is a symbol of the alphabet, and substituting under
/// `k` gives `c` again.
pub proof fn lemma_decrypted_symbol(alphabet: Seq<char>, k: char, c: char)
    requires
        alphabet.no_duplicates(),
        alphabet.contains(k),
        alphabet.contains(c),
    ensures
        decrypted_symbol(alphabet, k, c) == alphabet[(alphabet.index_of(c) - alphabet.index_of(k))
            % (alphabet.len() as int)],
        alphabet.contains(decrypted_symbol(alphabet, k, c)),
        encrypted_symbol(alphabet, k, decrypted_symbol(alphabet, k, c)) == c,
{
    let n = alphabet.len() as int;
    let rotated = rotation(alphabet, k);
    let d = rotated.index_of(c);
    lemma_rotation_is_permutation(alphabet, k);
    lemma_rotation_index(alphabet, k, c);
    assert(0 <= d < n);
    lemma_index_of_unique(alphabet, d);
}

/// Where no engine is refused, the alphabet and what is kept of the key
/// string are such as an engine can work with.
pub proof fn lemma_accepted_is_valid(alphabet: Seq<char>, key: Seq<char>)
    ensures
        rejection(alphabet, key) is None <==> valid_engine(alphabet, retained(alphabet, key)),
{
    lemma_retained_is_ordered_selection(alphabet, key, Seq::empty());
}

/// The key symbol that position `p` of a text is substituted under is the
/// key symbol at `p` modulo the key's length, a symbol of the alphabet.
pub proof fn lemma_key_stream(alphabet: Seq<char>, key: Seq<char>, length: nat, p: int)
    requires
        valid_engine(alphabet, key),
        0 <= p < length,
    ensures
        expanded_key(key, length)[p] == key[p % (key.len() as int)],
        alphabet.contains(expanded_key(key, length)[p]),
{
    lemma_expanded_key_covers(key, length);
    assert(alphabet.contains(key[p % (key.len() as int)]));
}

/// A ciphertext has one symbol for each character of the text that the
/// alphabet holds, and none for any other. Each is a symbol of the alphabet:
/// the one whose alphabet index is the sum of the indices of the plain symbol
/// and of the key symbol at that position modulo the key's length, wrapping
/// around.
pub proof fn lemma_encrypted_stays_in_alphabet(
    alphabet: Seq<char>,
    key: Seq<char>,
    text: Seq<char>,
)
    requires
        valid_engine(alphabet, key),
    ensures
        encrypted(alphabet, key, text).len() == retained(alphabet, text).len(),
        within(alphabet, encrypted(alphabet, key, text)),
        forall|p: int|
            0 <= p < retained(alphabet, text).len() ==> #[trigger] encrypted(alphabet, key, text)[p]
                == alphabet[(alphabet.index_of(key[p % (key.len() as int)]) + alphabet.index_of(
                retained(alphabet, text)[p],
            )) % (alphabet.len() as int)],
{
    let symbols = retained(alphabet, text);
    lemma_retained_is_ordered_selection(alphabet, text, Seq::empty());
    assert forall|p: int| 0 <= p < symbols.len() implies alphabet.contains(
        #[trigger] encrypted(alphabet, key, text)[p],
    ) && encrypted(alphabet, key, text)[p] == alphabet[(alphabet.index_of(
        key[p % (key.len() as int)],
    ) + alphabet.index_of(symbols[p])) % (alphabet.len() as int)] by {
        lemma_key_stream(alphabet, key, symbols.len(), p);
        assert(alphabet.contains(symbols[p]));
        lemma_encrypted_symbol(alphabet, expanded_key(key, symbols.len())[p], symbols[p]);
    }
}

/// A plaintext has one symbol for each character of the text that the
/// alphabet holds, and none for any other. Each is a symbol of the alphabet:
/// the one whose alphabet index is the index of the cipher symbol less that
/// of the key symbol at that position modulo the key's length, wrapping
/// around.
pub proof fn lemma_decrypted_stays_in_alphabet(
    alphabet: Seq<char>,
    key: Seq<char>,
    text: Seq<char>,
)
    requires
        valid_engine(alphabet, key),
    ensures
        decrypted(alphabet, key, text).len() == retained(alphabet, text).len(),
        within(alphabet, decrypted(alphabet, key, text)),
        forall|p: int|
            0 <= p < retained(alphabet, text).len() ==> #[trigger] decrypted(alphabet, key, text)[p]
                == alphabet[(alphabet.index_of(retained(alphabet, text)[p]) - alphabet.index_of(
                key[p % (key.len() as int)],
            )) % (alphabet.len() as int)],
{
    let symbols = retained(alphabet, text);
    lemma_retained_is_ordered_selection(alphabet, text, Seq::empty());
    assert forall|p: int| 0 <= p < symbols.len() implies alphabet.contains(
        #[trigger] decrypted(alphabet, key, text)[p],
    ) && decrypted(alphabet, key, text)[p] == alphabet[(alphabet.index_of(symbols[p])
        - alphabet.index_of(key[p % (key.len() as int)])) % (alphabet.len() as int)] by {
        lemma_key_stream(alphabet, key, symbols.len(), p);
        assert(alphabet.contains(symbols[p]));
        lemma_decrypted_symbol(alphabet, expanded_key(key, symbols.len())[p], symbols[p]);
    }
}

/// Decrypting a ciphertext under the key it was made with gives back the
/// text, less the characters that the alphabet does not hold: a text over
/// the alphabet comes back whole.
pub proof fn lemma_decrypt_undoes_encrypt(alphabet: Seq<char>, key: Seq<char>, text: Seq<char>)
    requires
        valid_engine(alphabet, key),
    ensures
        decrypted(alphabet, key, encrypted(alphabet, key, text)) == retained(alphabet, text),
        within(alphabet, text) ==> decrypted(alphabet, key, encrypted(alphabet, key, text))
            == text,
{
    if within(alphabet, text) {
        lemma_retained_identity(alphabet, text);
    }
    let symbols = retained(alphabet, text);
    let cipher = encrypted(alphabet, key, text);
    let plain = decrypted(alphabet, key, cipher);
    lemma_retained_is_ordered_selection(alphabet, text, Seq::empty());
    lemma_encrypted_stays_in_alphabet(alphabet, key, text);
    lemma_retained_identity(alphabet, cipher);
    assert forall|p: int| 0 <= p < symbols.len() implies #[trigger] plain[p] == symbols[p] by {
        lemma_key_stream(alphabet, key, symbols.len(), p);
        assert(alphabet.contains(symbols[p]));
        lemma_encrypted_symbol(alphabet, expanded_key(key, symbols.len())[p], symbols[p]);
    }
    assert(plain =~= symbols);
}

/// Encrypting a plaintext under the key it was made with gives back the
/// ciphertext, less the characters that the alphabet does not hold: a
/// ciphertext over the alphabet comes back whole.
pub proof fn lemma_encrypt_undoes_decrypt(alphabet: Seq<char>, key: Seq<char>, text: Seq<char>)
    requires
        valid_engine(alphabet, key),
    ensures
        encrypted(alphabet, key, decrypted(alphabet, key, text)) == retained(alphabet, text),
        within(alphabet, text) ==> encrypted(alphabet, key, decrypted(alphabet, key, text))
            == text,
{
    if within(alphabet, text) {
        lemma_retained_identity(alphabet, text);
    }
    let symbols = retained(alphabet, text);
    let plain = decrypted(alphabet, key, text);
    let cipher = encrypted(alphabet, key, plain);
    lemma_retained_is_ordered_selection(alphabet, text, Seq::empty());
    lemma_decrypted_stays_in_alphabet(alphabet, key, text);
    lemma_retained_identity(alphabet, plain);
    assert forall|p: int| 0 <= p < symbols.len() implies #[trigger] cipher[p] == symbols[p] by {
        lemma_key_stream(alphabet, key, symbols.len(), p);
        assert(alphabet.contains(symbols[p]));
        lemma_decrypted_symbol(alphabet, expanded_key(key, symbols.len())[p], symbols[p]);
    }
    assert(cipher =~= symbols);
}

} // verus!
