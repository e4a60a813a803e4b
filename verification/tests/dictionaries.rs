use number_words::cmu_parser::{parse_cmu, parse_cmu_line};
use number_words::nst_parser::{format_cache, parse_cache, parse_nst, parse_nst_line, xsampa_to_ipa};
use number_words::number_word_translator::WordIpaPair;
use number_words::symbol_map::SymbolMap;

fn arpabet() -> SymbolMap {
    let mut m = SymbolMap::new();
    m.insert("AE", "æ");
    m.insert("B", "b");
    m.insert("AH", "ə");
    m.insert("D", "d");
    m
}

fn xsampa() -> SymbolMap {
    let mut m = SymbolMap::new();
    m.insert("h", "h");
    m.insert("}", "ʉ");
    m.insert("}:", "ʉː");
    m.insert("s", "s");
    m.insert("b", "b");
    m.insert("l", "l");
    m.insert("o:", "oː");
    m
}

fn header() -> String {
    ";;; comment line\n".repeat(56)
}

#[test]
fn symbol_map_insert_replaces() {
    let mut m = SymbolMap::new();
    m.insert("AE", "a");
    m.insert("AE", "æ");
    let key: Vec<char> = "AE".chars().collect();
    assert_eq!(m.get(&key).map(|s| s.as_str()), Some("æ"));
    let other: Vec<char> = "AH".chars().collect();
    assert_eq!(m.get(&other), None);
}

#[test]
fn cmu_line_gives_word_and_ipa() {
    let p = parse_cmu_line("ABBA  AE1 B AH0", &arpabet()).unwrap();
    assert_eq!(p.word, "ABBA");
    assert_eq!(p.ipa_symbols, vec!["æ", "b", "ə"]);
}

#[test]
fn cmu_line_without_two_spaces_or_known_symbols_fails() {
    assert!(parse_cmu_line("ABBA AE1 B AH0", &arpabet()).is_none());
    assert!(parse_cmu_line("ZED  Z EH1 D", &arpabet()).is_none());
    // Two spaces in the pronunciation give an empty symbol, which the table lacks.
    assert!(parse_cmu_line("AD  AE1  D", &arpabet()).is_none());
}

#[test]
fn cmu_line_drops_stress_digits_only() {
    // Every numeric character goes, wherever it stands.
    let p = parse_cmu_line("BAD  B AE2 D", &arpabet()).unwrap();
    assert_eq!(p.ipa_symbols, vec!["b", "æ", "d"]);
    let p = parse_cmu_line("BAD  B 1AE D", &arpabet()).unwrap();
    assert_eq!(p.ipa_symbols, vec!["b", "æ", "d"]);
}

#[test]
fn cmu_dictionary_skips_its_header() {
    let text = format!("{}ABBA  AE1 B AH0\nBAD  B AE1 D\n", header());
    let words = parse_cmu(&text, &arpabet()).unwrap();
    assert_eq!(words.len(), 2);
    assert_eq!(words[0].word, "ABBA");
    assert_eq!(words[1].word, "BAD");
    assert_eq!(words[1].ipa_symbols, vec!["b", "æ", "d"]);
}

#[test]
fn cmu_dictionary_of_header_only_is_empty() {
    assert_eq!(parse_cmu(&header(), &arpabet()).unwrap().len(), 0);
    assert_eq!(parse_cmu("short\n", &arpabet()).unwrap().len(), 0);
}

#[test]
fn cmu_dictionary_fails_on_bad_line() {
    let text = format!("{}ABBA  AE1 B AH0\nBROKEN\n", header());
    assert!(parse_cmu(&text, &arpabet()).is_none());
}

#[test]
fn xsampa_takes_longest_key() {
    let xs: Vec<char> = "h}:s".chars().collect();
    assert_eq!(xsampa_to_ipa(&xs, &xsampa()), Some(vec!["h".to_string(), "ʉː".to_string(), "s".to_string()]));
    let xs: Vec<char> = "h}s".chars().collect();
    assert_eq!(xsampa_to_ipa(&xs, &xsampa()), Some(vec!["h".to_string(), "ʉ".to_string(), "s".to_string()]));
    let xs: Vec<char> = "".chars().collect();
    assert_eq!(xsampa_to_ipa(&xs, &xsampa()), Some(vec![]));
}

#[test]
fn xsampa_fails_on_unknown_symbol_or_empty_key() {
    let xs: Vec<char> = "hq".chars().collect();
    assert_eq!(xsampa_to_ipa(&xs, &xsampa()), None);
    let mut m = xsampa();
    m.insert("", "?");
    let xs: Vec<char> = "hq".chars().collect();
    assert_eq!(xsampa_to_ipa(&xs, &m), None);
}

#[test]
fn nst_line_reads_word_and_twelfth_field() {
    let p = parse_nst_line("hus;1;2;3;4;5;6;7;8;9;10;h}:s;rest", &xsampa()).unwrap();
    assert_eq!(p.word, "hus");
    assert_eq!(p.ipa_symbols, vec!["h", "ʉː", "s"]);
    assert!(parse_nst_line("hus;1;2;3;4;5;6;7;8;9;10", &xsampa()).is_none());
}

#[test]
fn nst_lexicon_is_decoded_from_windows_1252() {
    let bytes = b"bl\xe5;1;2;3;4;5;6;7;8;9;10;blo:\nhus;1;2;3;4;5;6;7;8;9;10;h}:s\n";
    let words = parse_nst(bytes, &xsampa()).unwrap();
    assert_eq!(words.len(), 2);
    assert_eq!(words[0].word, "blå");
    assert_eq!(words[0].ipa_symbols, vec!["b", "l", "oː"]);
    assert_eq!(words[1].word, "hus");
}

#[test]
fn nst_lexicon_fails_on_short_line() {
    assert!(parse_nst(b"hus;h}:s\n", &xsampa()).is_none());
}

#[test]
fn cache_text_has_one_line_per_word() {
    let pairs = vec![
        WordIpaPair { word: "blå".to_string(), ipa_symbols: vec!["b".to_string(), "l".to_string(), "oː".to_string()] },
        WordIpaPair { word: "hus".to_string(), ipa_symbols: vec!["h".to_string()] },
    ];
    let text = format_cache(&pairs);
    assert_eq!(text, "blå@@b@@l@@oː\nhus@@h\n");
    let back = parse_cache(&text);
    assert_eq!(back.len(), 2);
    assert_eq!(back[0].word, "blå");
    assert_eq!(back[0].ipa_symbols, vec!["b", "l", "oː"]);
    assert_eq!(back[1].ipa_symbols, vec!["h"]);
}

#[test]
fn cache_of_word_without_symbols_reads_back_an_empty_symbol() {
    let pairs = vec![WordIpaPair { word: "x".to_string(), ipa_symbols: vec![] }];
    let text = format_cache(&pairs);
    assert_eq!(text, "x@@\n");
    let back = parse_cache(&text);
    assert_eq!(back[0].ipa_symbols, vec![""]);
}

#[test]
fn cache_keeps_single_at_signs_inside_fields() {
    let pairs = vec![WordIpaPair {
        word: "a@b".to_string(),
        ipa_symbols: vec!["@x".to_string(), "y@z".to_string(), "w@".to_string()],
    }];
    let text = format_cache(&pairs);
    assert_eq!(text, "a@b@@@x@@y@z@@w@\n");
    let back = parse_cache(&text);
    assert_eq!(back.len(), 1);
    assert_eq!(back[0].word, "a@b");
    assert_eq!(back[0].ipa_symbols, vec!["@x", "y@z", "w@"]);
}

#[test]
fn cache_word_ending_with_at_sign_runs_into_the_separator() {
    let pairs = vec![WordIpaPair { word: "ab@".to_string(), ipa_symbols: vec!["x".to_string()] }];
    let back = parse_cache(&format_cache(&pairs));
    assert_eq!(back[0].word, "ab");
    assert_eq!(back[0].ipa_symbols, vec!["@x"]);
}

#[test]
fn nst_lexicon_decodes_the_windows_1252_specials() {
    let bytes = b"\x80\x81\x9f;1;2;3;4;5;6;7;8;9;10;h\n";
    let words = parse_nst(bytes, &xsampa()).unwrap();
    assert_eq!(words[0].word, "\u{20AC}\u{81}\u{178}");
}

#[test]
fn cmu_readers_agree_on_words_and_symbols() {
    let text = format!("{}ABBA  AE1 B AH0\nBAD  B AE1 D\n", header());
    let parsed = parse_cmu(&text, &arpabet()).unwrap();
    let loaded = number_words::cmu_translator::load_words(&text).unwrap();
    assert_eq!(parsed.len(), loaded.len());
    for (p, l) in parsed.iter().zip(loaded.iter()) {
        assert_eq!(p.word, l.word);
        let looked_up: Vec<String> = l
            .arpabet_pronon
            .iter()
            .map(|s| {
                let cs: Vec<char> = s.chars().collect();
                arpabet().get(&cs).unwrap().clone()
            })
            .collect();
        assert_eq!(p.ipa_symbols, looked_up);
    }
    let unknown = format!("{}ZED  Z EH1 D\n", header());
    assert!(parse_cmu(&unknown, &arpabet()).is_none());
    assert!(number_words::cmu_translator::load_words(&unknown).is_some());
}
