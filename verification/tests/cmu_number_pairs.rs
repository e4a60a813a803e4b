use number_words::cmu_translator::{get_letter_number_pair, get_word_number_pairs, load_words, strip_newline};

fn header() -> String {
    ";;; comment line\n".repeat(56)
}

#[test]
fn leading_table_reads_one_character_numbers() {
    let m = get_letter_number_pair("1=S,Z\n2=T,D\n").unwrap();
    assert_eq!(m[&1], vec!["S", "Z"]);
    assert_eq!(m[&2], vec!["T", "D"]);
    // Only the first cluster is the number; the second is skipped whatever it is.
    let m = get_letter_number_pair("12=S\n").unwrap();
    assert_eq!(m[&1], vec!["=S"]);
    assert!(get_letter_number_pair("x=S\n").is_none());
}

#[test]
fn load_words_strips_stress_digits() {
    let text = format!("{}SAT  S AE1 T\n", header());
    let words = load_words(&text).unwrap();
    assert_eq!(words.len(), 1);
    assert_eq!(words[0].word, "SAT");
    assert_eq!(words[0].arpabet_pronon, vec!["S", "AE", "T"]);
    assert!(load_words(&format!("{}SAT S\n", header())).is_none());
}

#[test]
fn word_number_pairs_spell_digits() {
    let text = format!("{}SAT  S AE1 T\nSASS  S AE1 S S\n", header());
    let pairs = get_word_number_pairs("1=S,Z\n2=T,D\n", &text).unwrap();
    assert_eq!(pairs.len(), 2);
    assert_eq!(pairs[0].word, "SAT");
    assert_eq!(pairs[0].number, "12");
    assert_eq!(pairs[0].arpabet_pronon, vec!["S", "AE", "T"]);
    assert_eq!(pairs[1].number, "111");
}

#[test]
fn word_number_pairs_repeat_digits_of_repeated_symbols() {
    let text = format!("{}SAT  S AE1 T\n", header());
    let pairs = get_word_number_pairs("1=S,S\n2=T\n", &text).unwrap();
    assert_eq!(pairs[0].number, "112");
}

#[test]
fn word_number_pairs_fail_on_bad_input() {
    let text = format!("{}SAT  S AE1 T\n", header());
    assert!(get_word_number_pairs("x=S\n", &text).is_none());
    assert!(get_word_number_pairs("1=S\n", &format!("{}SAT\n", header())).is_none());
    // A table line "-1=T" reads as number "-" which is no number.
    assert!(get_word_number_pairs("-1=T\n", &text).is_none());
}

#[test]
fn strip_newline_is_shared() {
    assert_eq!(strip_newline("x\n".to_string()), "x");
}
