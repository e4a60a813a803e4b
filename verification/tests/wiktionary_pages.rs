use number_words::trygvejw::utils::vector_utils::{index_of_first_match, index_of_last_match};
use number_words::wiktionary::segment_structs::{
    get_page_IPA_pronontiation, get_page_word, get_string_between, is_page_of_language, log_line,
    parse_page_block, CutScan, PageReader, SegmentPlanner, SegmentReader,
};

fn lines(ls: &[&str]) -> Vec<String> {
    ls.iter().map(|x| x.to_string()).collect()
}

fn dog_page() -> Vec<String> {
    lines(&[
        "  <page>",
        "    <title>dog</title>",
        "==English==",
        "===Pronunciation===",
        "* {{IPA|en|/dɒɡ/}}",
        "* {{a|US}} {{IPA|en|/dɔɡ/}}",
        " ",
        "</page>",
    ])
}

#[test]
fn first_and_last_match() {
    let v = vec![1, 2, 3, 4];
    assert_eq!(index_of_first_match(|x: &i32| *x > 2, &v), 2);
    assert_eq!(index_of_first_match(|x: &i32| *x > 9, &v), 0);
    // Counted from the end: the last element below 3 is the second from the end.
    assert_eq!(index_of_last_match(|x: &i32| *x < 3, &v), 2);
    assert_eq!(index_of_last_match(|x: &i32| *x > 9, &v), 0);
}

#[test]
fn string_between_is_always_some() {
    let s = String::from("x<a>y</a>z");
    assert_eq!(get_string_between("<a>", "</a>", &s), Some("y".to_string()));
    let s = String::from("plain");
    assert_eq!(get_string_between("<a>", "</a>", &s), Some("plain".to_string()));
}

#[test]
fn page_language_and_word() {
    let page = dog_page();
    assert!(is_page_of_language(&"English".to_string(), &page));
    assert!(!is_page_of_language(&"German".to_string(), &page));
    assert_eq!(get_page_word(&page), Some("dog".to_string()));
}

#[test]
fn heading_on_first_line_does_not_count() {
    let page = lines(&["==English==", "<title>x</title>"]);
    assert!(!is_page_of_language(&"English".to_string(), &page));
    let page = lines(&["<title>x</title>"]);
    assert_eq!(get_page_word(&page), None);
}

#[test]
fn pronunciation_prefers_us() {
    assert_eq!(get_page_IPA_pronontiation(&dog_page()), Some("dɔɡ".to_string()));
}

#[test]
fn pronunciation_needs_a_blank_line() {
    let page = lines(&["x", "===Pronunciation===", "* {{IPA|en|/kæt/}}", "</page>"]);
    assert_eq!(get_page_IPA_pronontiation(&page), None);
    let page = lines(&["x", "===Pronunciation===", "* {{IPA|en|/kæt/}}", " "]);
    assert_eq!(get_page_IPA_pronontiation(&page), Some("kæt".to_string()));
    let page = lines(&["x", "===Pronunciation===", "no ipa", " "]);
    assert_eq!(get_page_IPA_pronontiation(&page), None);
}

#[test]
fn page_block_gives_english_words() {
    let p = parse_page_block(&dog_page()).unwrap();
    assert_eq!(p.word, "dog");
    assert_eq!(p.ipa_pronontiation, "dɔɡ");
    assert_eq!(log_line(&p), "dog@dɔɡ\n");
}

#[test]
fn page_block_skips_titles_with_colon() {
    let mut page = dog_page();
    page[1] = "    <title>Talk:dog</title>".to_string();
    assert!(parse_page_block(&page).is_none());
}

#[test]
fn page_reader_collects_closed_pages() {
    let mut r = PageReader::new();
    for l in dog_page() {
        r.push_line(l);
    }
    r.push_line("  <page>".to_string());
    let pages = r.into_pages();
    assert_eq!(pages.len(), 1);
    assert_eq!(pages[0].word, "dog");
}

#[test]
fn planner_cuts_at_page_ends() {
    let mut p = SegmentPlanner::new(1000, 3);
    assert!(p.has_cuts_left());
    assert_eq!(p.begin_cut(), Some(333));
    assert_eq!(p.check(""), CutScan::ReadMore);
    assert!(p.record_line(20));
    assert_eq!(p.check("text\n"), CutScan::ReadMore);
    assert!(p.record_line(10));
    assert_eq!(p.check("</page>\n"), CutScan::PageEnd);
    p.end_cut();
    assert_eq!(p.begin_cut(), Some(364 + 333));
    assert!(p.record_line(400));
    assert_eq!(p.check("x\n"), CutScan::FileEnd);
    p.end_cut();
    assert!(!p.has_cuts_left());
    let segs = p.finish().unwrap();
    let bounds: Vec<(usize, usize)> = segs.iter().map(|s| (s.start(), s.end())).collect();
    assert_eq!(bounds, vec![(0, 363), (364, 1097), (1098, 1000)]);
}

#[test]
fn segment_reader_stops_at_the_end() {
    let mut p = SegmentPlanner::new(100, 2);
    p.begin_cut();
    p.end_cut();
    let segs = p.finish().unwrap();
    let mut r = SegmentReader::new(&segs[0]);
    assert_eq!(r.current_position(), 0);
    let mut more = true;
    for l in dog_page() {
        let n = l.len() + 1;
        more = r.read_line(l, n);
        if !more {
            break;
        }
    }
    assert!(!more);
    let pages = r.into_pages();
    assert!(pages.is_empty());
    let mut r = SegmentReader::new(&segs[1]);
    assert_eq!(r.current_position(), 51);
    assert!(!r.read_line("x".to_string(), 60));
}
