use vigenere::symbols::{characters, has_duplicates, position};
use vigenere::{ConfigurationError, Vigenere};

const GREEK: &'static str = "αβγδεζηθικλμνξοπρστυφχψω";

fn chars(text: &str) -> Vec<char> {
    text.chars().collect()
}

#[test]
fn filter_keeps_alphabet_characters_in_order() {
    let alphabet = chars("abc");
    let kept = Vigenere::filter_characters(&alphabet, "cab, x-ray: a b c!");
    assert_eq!(kept, chars("cabaabc"));
}

#[test]
fn filter_of_text_without_alphabet_characters_is_empty() {
    let alphabet = chars(Vigenere::ALPHABET_ASCII);
    assert_eq!(Vigenere::filter_characters(&alphabet, "123 ,.!"), Vec::<char>::new());
    assert_eq!(Vigenere::filter_characters(&alphabet, ""), Vec::<char>::new());
}

#[test]
fn filter_drops_upper_case_for_a_lower_case_alphabet() {
    let alphabet = chars(Vigenere::ALPHABET_ASCII);
    assert_eq!(Vigenere::filter_characters(&alphabet, "One For All"), chars("neorll"));
}

#[test]
fn filter_with_empty_alphabet_keeps_nothing() {
    let alphabet: Vec<char> = Vec::new();
    assert_eq!(Vigenere::filter_characters(&alphabet, "abc"), Vec::<char>::new());
}

#[test]
fn rotation_starts_at_the_key_symbol_and_wraps() {
    let alphabet = chars("abcdefghijklmnopqrstuvwxyz");
    let key = chars("v");
    let table = Vigenere::shift_alphabet(&alphabet, &key);
    assert_eq!(table.get(&('v' as u32)), Some(&chars("vwxyzabcdefghijklmnopqrstu")));
}

#[test]
fn rotation_to_the_first_symbol_is_the_alphabet() {
    let alphabet = chars("abcd");
    let table = Vigenere::shift_alphabet(&alphabet, &chars("ad"));
    assert_eq!(table.get(&('a' as u32)), Some(&chars("abcd")));
    assert_eq!(table.get(&('d' as u32)), Some(&chars("dabc")));
}

#[test]
fn rotation_table_has_one_entry_for_each_distinct_key_symbol() {
    let alphabet = chars("abcd");
    let table = Vigenere::shift_alphabet(&alphabet, &chars("abba"));
    assert_eq!(table.len(), 2);
    assert_eq!(table.get(&('a' as u32)), Some(&chars("abcd")));
    assert_eq!(table.get(&('b' as u32)), Some(&chars("bcda")));
    assert_eq!(table.get(&('c' as u32)), None);
    assert_eq!(table.get(&('d' as u32)), None);
}

#[test]
fn rotation_table_of_the_empty_key_is_empty() {
    let alphabet = chars("abcd");
    let table = Vigenere::shift_alphabet(&alphabet, &Vec::new());
    assert!(table.is_empty());
}

#[test]
fn rotation_is_a_permutation_of_the_alphabet() {
    let alphabet = chars(GREEK);
    let table = Vigenere::shift_alphabet(&alphabet, &chars("ολυμπια"));
    assert_eq!(table.len(), 7);
    for rotated in table.values() {
        assert_eq!(rotated.len(), alphabet.len());
        let mut sorted = rotated.clone();
        sorted.sort();
        let mut expected = alphabet.clone();
        expected.sort();
        assert_eq!(sorted, expected);
    }
    assert_eq!(table.get(&('ω' as u32)), None);
    assert_eq!(table.get(&('ο' as u32)), Some(&chars("οπρστυφχψωαβγδεζηθικλμνξ")));
}

#[test]
fn key_keeps_repetitions() {
    let vigenere = Vigenere::new("abba", None).unwrap();
    assert_eq!(vigenere.key(), &chars("abba"));
}

#[test]
fn key_drops_characters_outside_the_alphabet() {
    let vigenere = Vigenere::new("v-i g3e", None).unwrap();
    assert_eq!(vigenere.key(), &chars("vige"));
    assert_eq!(vigenere.alphabet(), &chars("abcdefghijklmnopqrstuvwxyz"));
}

#[test]
fn default_alphabet_is_the_lower_case_latin_letters() {
    assert_eq!(Vigenere::ALPHABET_ASCII, "abcdefghijklmnopqrstuvwxyz");
    let vigenere = Vigenere::new("k", None).unwrap();
    assert_eq!(vigenere.alphabet().len(), 26);
    assert!(!has_duplicates(vigenere.alphabet()));
}

#[test]
fn enlarged_key_is_whole_repetitions_longer_than_the_text() {
    let vigenere = Vigenere::new("abc", None).unwrap();
    assert_eq!(vigenere.enlarge_key(0), chars("abc"));
    assert_eq!(vigenere.enlarge_key(1), chars("abc"));
    assert_eq!(vigenere.enlarge_key(2), chars("abc"));
    assert_eq!(vigenere.enlarge_key(3), chars("abcabc"));
    assert_eq!(vigenere.enlarge_key(5), chars("abcabc"));
    assert_eq!(vigenere.enlarge_key(6), chars("abcabcabc"));
    assert_eq!(vigenere.enlarge_key(7), chars("abcabcabc"));
}

#[test]
fn enlarged_key_of_a_single_symbol() {
    let vigenere = Vigenere::new("z", None).unwrap();
    assert_eq!(vigenere.enlarge_key(0), chars("z"));
    assert_eq!(vigenere.enlarge_key(4), chars("zzzzz"));
}

#[test]
fn enlarged_key_length_is_a_multiple_of_the_key_length() {
    let vigenere = Vigenere::new("vigenere", None).unwrap();
    for length in 0..40usize {
        let enlarged = vigenere.enlarge_key(length);
        assert!(enlarged.len() > length);
        assert!(enlarged.len() <= length + 8);
        assert_eq!(enlarged.len() % 8, 0);
        for (p, c) in enlarged.iter().enumerate() {
            assert_eq!(*c, vigenere.key()[p % 8]);
        }
    }
}

#[test]
fn degenerate_key_is_refused() {
    assert_eq!(Vigenere::new("123", None), Err(ConfigurationError::EmptyKey));
    assert_eq!(Vigenere::new("", None), Err(ConfigurationError::EmptyKey));
    assert_eq!(Vigenere::new("VIGENERE", None), Err(ConfigurationError::EmptyKey));
    assert_eq!(Vigenere::new("vigenere", Some(GREEK)), Err(ConfigurationError::EmptyKey));
}

#[test]
fn empty_alphabet_is_refused_for_its_empty_key() {
    assert_eq!(Vigenere::new("abc", Some("")), Err(ConfigurationError::EmptyKey));
}

#[test]
fn alphabet_with_a_repeated_symbol_is_refused() {
    assert_eq!(Vigenere::new("a", Some("aab")), Err(ConfigurationError::DuplicateSymbol));
    assert_eq!(Vigenere::new("b", Some("abca")), Err(ConfigurationError::DuplicateSymbol));
    assert_eq!(Vigenere::new("α", Some("αβγβ")), Err(ConfigurationError::DuplicateSymbol));
}

#[test]
fn repeated_symbol_is_reported_before_an_empty_key() {
    assert_eq!(Vigenere::new("123", Some("abb")), Err(ConfigurationError::DuplicateSymbol));
}

#[test]
fn construction_is_deterministic() {
    let first = Vigenere::new("vigenere", None).unwrap();
    let second = Vigenere::new("vigenere", None).unwrap();
    assert_eq!(first, second);
    for text in ["", "attack at dawn", "one for all, all for one.", "ZZZ", "a,b"] {
        assert_eq!(first.encrypt(text), second.encrypt(text));
        assert_eq!(first.decrypt(text), second.decrypt(text));
    }
    assert_eq!(Vigenere::new("123", None), Vigenere::new("123", None));
}

#[test]
fn clone_answers_like_the_engine() {
    let vigenere = Vigenere::new("ολυμπια", Some(GREEK)).unwrap();
    let copy = vigenere.clone();
    assert_eq!(copy, vigenere);
    assert_eq!(copy.encrypt("μεσανυχτα"), vigenere.encrypt("μεσανυχτα"));
}

#[test]
fn punctuation_contributes_no_output_character() {
    for key in ["a", "b", "key", "vigenere", "zzz"] {
        let vigenere = Vigenere::new(key, None).unwrap();
        let encrypted = vigenere.encrypt("a,b");
        assert_eq!(encrypted.chars().count(), 2);
        assert!(encrypted.chars().all(|c| Vigenere::ALPHABET_ASCII.contains(c)));
    }
}

#[test]
fn encrypt_adds_alphabet_indices() {
    let vigenere = Vigenere::new("b", None).unwrap();
    assert_eq!(vigenere.encrypt("a,b"), "bc");
    assert_eq!(vigenere.encrypt("xyz"), "yza");
    let vigenere = Vigenere::new("lemon", None).unwrap();
    assert_eq!(vigenere.encrypt("attackatdawn"), "lxfopvefrnhr");
}

#[test]
fn decrypt_subtracts_alphabet_indices() {
    let vigenere = Vigenere::new("b", None).unwrap();
    assert_eq!(vigenere.decrypt("b,c"), "ab");
    assert_eq!(vigenere.decrypt("yza"), "xyz");
    let vigenere = Vigenere::new("lemon", None).unwrap();
    assert_eq!(vigenere.decrypt("lxfopvefrnhr"), "attackatdawn");
}

#[test]
fn key_of_the_first_symbol_leaves_the_text() {
    let vigenere = Vigenere::new("a", None).unwrap();
    assert_eq!(vigenere.encrypt("hello, world"), "helloworld");
    assert_eq!(vigenere.decrypt("hello, world"), "helloworld");
}

#[test]
fn key_position_counts_kept_characters_only() {
    let vigenere = Vigenere::new("ab", None).unwrap();
    assert_eq!(vigenere.encrypt("aaaa"), "abab");
    assert_eq!(vigenere.encrypt("a a-a.a"), "abab");
    assert_eq!(vigenere.encrypt("é a É a a a"), "abab");
}

#[test]
fn empty_text_gives_empty_text() {
    let vigenere = Vigenere::new("vigenere", None).unwrap();
    assert_eq!(vigenere.encrypt(""), "");
    assert_eq!(vigenere.decrypt(""), "");
    assert_eq!(vigenere.encrypt("1, 2, 3!"), "");
    assert_eq!(vigenere.decrypt("1, 2, 3!"), "");
}

#[test]
fn text_over_the_alphabet_comes_back_whole() {
    let vigenere = Vigenere::new("vigenere", None).unwrap();
    let encrypted = vigenere.encrypt("oneforallallforone");
    assert_eq!(encrypted, "jvkjbvrpgirpssisim");
    assert_eq!(vigenere.decrypt(&encrypted), "oneforallallforone");
}

#[test]
fn decrypt_undoes_encrypt_up_to_filtering() {
    let vigenere = Vigenere::new("vigenere", None).unwrap();
    let text = "One for all, all for one.";
    let encrypted = vigenere.encrypt(text);
    assert_eq!(vigenere.decrypt(&encrypted), "neforallallforone");
}

#[test]
fn encrypt_undoes_decrypt_up_to_filtering() {
    let vigenere = Vigenere::new("ολυμπια", Some(GREEK)).unwrap();
    let text = "μεσα νυχτα, abc";
    let decrypted = vigenere.decrypt(text);
    assert_eq!(vigenere.encrypt(&decrypted), "μεσανυχτα");
}

#[test]
fn greek_known_vector() {
    let vigenere = Vigenere::new("ολυμπια", Some(GREEK)).unwrap();
    // μ (11) + ο (14) = 25, and 25 mod 24 = 1: β. ε (4) + λ (10) = 14: ο.
    let encrypted = vigenere.encrypt("με");
    assert_eq!(encrypted, "βο");
    assert_eq!(vigenere.decrypt("βο"), "με");
}

#[test]
fn position_finds_the_first_occurrence() {
    let symbols = chars("abcabc");
    assert_eq!(position(&symbols, 'a'), Some(0));
    assert_eq!(position(&symbols, 'c'), Some(2));
    assert_eq!(position(&symbols, 'd'), None);
    assert_eq!(position(&Vec::new(), 'a'), None);
}

#[test]
fn duplicates_are_found() {
    assert!(!has_duplicates(&chars("")));
    assert!(!has_duplicates(&chars("a")));
    assert!(!has_duplicates(&chars("abc")));
    assert!(has_duplicates(&chars("aa")));
    assert!(has_duplicates(&chars("abca")));
    assert!(has_duplicates(&chars("abcc")));
    assert!(!has_duplicates(&chars(GREEK)));
}

#[test]
fn characters_are_read_one_by_one() {
    assert_eq!(characters(""), Vec::<char>::new());
    assert_eq!(characters("aβc"), vec!['a', 'β', 'c']);
    assert_eq!(characters(GREEK).len(), 24);
}
