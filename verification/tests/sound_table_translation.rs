use number_words::number_word_translator::{get_letter_number_pair, WordIpaPair, WordNumberTranslator};

fn syms(s: &[&str]) -> Vec<String> {
    s.iter().map(|x| x.to_string()).collect()
}

fn pair(word: &str, s: &[&str]) -> WordIpaPair {
    WordIpaPair { word: word.to_string(), ipa_symbols: syms(s) }
}

const TABLE: &str = "1=s,z\n2=t,d\n12=x\n";

#[test]
fn letter_number_table_is_read_line_by_line() {
    let m = get_letter_number_pair(TABLE).unwrap();
    assert_eq!(m.len(), 3);
    assert_eq!(m[&1], syms(&["s", "z"]));
    assert_eq!(m[&2], syms(&["t", "d"]));
    assert_eq!(m[&12], syms(&["x"]));
}

#[test]
fn letter_number_table_joins_lines_of_one_number() {
    let m = get_letter_number_pair("1=s\n1=z,\n").unwrap();
    assert_eq!(m[&1], syms(&["s", "z"]));
}

#[test]
fn letter_number_table_drops_unterminated_and_empty_symbols() {
    // The last symbol of a line without a final line feed has no separator after it.
    let m = get_letter_number_pair("3=m,,n").unwrap();
    assert_eq!(m[&3], syms(&["m"]));
    // A number without symbols does not enter the table.
    let m = get_letter_number_pair("4=\n").unwrap();
    assert!(m.is_empty());
}

#[test]
fn letter_number_table_reads_by_grapheme() {
    // "\r\n" is one grapheme cluster, which is no separator: the run is dropped.
    let m = get_letter_number_pair("1=s,z\r\n").unwrap();
    assert_eq!(m[&1], syms(&["s"]));
    // A combining mark stays with the letter before it.
    let m = get_letter_number_pair("2=t\u{32a},d\n").unwrap();
    assert_eq!(m[&2], syms(&["t\u{32a}", "d"]));
    // A comma carrying a combining mark is not a separator.
    let m = get_letter_number_pair("2=a,\u{301}b\n").unwrap();
    assert_eq!(m[&2], syms(&["a,\u{301}b"]));
}

#[test]
fn letter_number_table_rejects_lines_without_number() {
    assert!(get_letter_number_pair("1s,z\n").is_none());
    assert!(get_letter_number_pair("x=s\n").is_none());
    assert!(get_letter_number_pair("1=s\n=t\n").is_none());
}

#[test]
fn translate_word_spells_digits_of_symbols() {
    let t = WordNumberTranslator::new(TABLE).unwrap();
    let w = t.translate_word(pair("sad", &["s", "æ", "d"]));
    assert_eq!(w.word, "sad");
    assert_eq!(w.number, "12");
    assert_eq!(w.ipa_symbols, syms(&["s", "æ", "d"]));
    let w = t.translate_word(pair("ax", &["æ", "x", "z"]));
    assert_eq!(w.number, "121");
    let w = t.translate_word(pair("a", &["æ"]));
    assert_eq!(w.number, "");
}

#[test]
fn translator_new_rejects_bad_table() {
    assert!(WordNumberTranslator::new("one=s\n").is_none());
}

#[test]
fn add_new_words_translates_in_order() {
    let mut t = WordNumberTranslator::new(TABLE).unwrap();
    t.add_new_words(vec![pair("sat", &["s", "æ", "t"]), pair("zoo", &["z", "uː"])]);
    t.add_new_words(vec![pair("dad", &["d", "æ", "d"])]);
    assert_eq!(t.words_for_input("12\n"), Some(vec![0]));
    assert_eq!(t.words_for_input("1\n"), Some(vec![1]));
    assert_eq!(t.words_for_input("22\n"), Some(vec![2]));
    assert_eq!(t.words_for_input("3\n"), Some(vec![]));
}

#[test]
fn words_for_input_needs_a_line_feed() {
    let mut t = WordNumberTranslator::new(TABLE).unwrap();
    t.add_new_words(vec![pair("sat", &["s", "æ", "t"])]);
    assert_eq!(t.words_for_input("12"), None);
    assert_eq!(t.words_for_input(""), None);
    assert_eq!(t.words_for_input("12\n\n"), Some(vec![]));
}

#[test]
fn words_for_input_finds_all_words_with_the_number() {
    let mut t = WordNumberTranslator::new(TABLE).unwrap();
    t.add_new_words(vec![
        pair("sat", &["s", "æ", "t"]),
        pair("a", &["æ"]),
        pair("zed", &["z", "ɛ", "d"]),
    ]);
    assert_eq!(t.words_for_input("12\n"), Some(vec![0, 2]));
    assert_eq!(t.words_for_input("\n"), Some(vec![1]));
}

#[test]
fn symbol_frequencies_count_and_order() {
    let mut t = WordNumberTranslator::new(TABLE).unwrap();
    t.add_new_words(vec![pair("sits", &["s", "ɪ", "t", "s"]), pair("so", &["s", "oʊ"])]);
    assert!(t.symbol_count_fits());
    let f = t.get_ipa_symbol_frequencies();
    assert_eq!(f.len(), 4);
    assert_eq!(f[0].symbol, "s");
    assert_eq!(f[0].count, 3);
    assert_eq!(f[0].number, 1);
    let total: i32 = f.iter().map(|x| x.count).sum();
    assert_eq!(total, 6);
    for pair in f.windows(2) {
        assert!(pair[0].count >= pair[1].count);
    }
    let t_entry = f.iter().find(|x| x.symbol == "t").unwrap();
    assert_eq!((t_entry.count, t_entry.number), (1, 2));
    let vowel = f.iter().find(|x| x.symbol == "ɪ").unwrap();
    assert_eq!((vowel.count, vowel.number), (1, -1));
}

#[test]
fn symbol_frequencies_of_no_words_are_empty() {
    let t = WordNumberTranslator::new(TABLE).unwrap();
    assert!(t.get_ipa_symbol_frequencies().is_empty());
}

#[test]
fn stored_numbers_match_a_fresh_translation() {
    let mut t = WordNumberTranslator::new(TABLE).unwrap();
    t.add_new_words(vec![pair("sat", &["s", "æ", "t"]), pair("zoo", &["z", "uː"])]);
    t.add_new_words(vec![pair("dad", &["d", "æ", "d"])]);
    let stored: Vec<(String, String, Vec<String>)> = t
        .translated_words()
        .iter()
        .map(|w| (w.number.clone(), w.word.clone(), w.ipa_symbols.clone()))
        .collect();
    for (number, word, symbols) in stored {
        let again = t.translate_word(WordIpaPair { word, ipa_symbols: symbols });
        assert_eq!(again.number, number);
    }
}
