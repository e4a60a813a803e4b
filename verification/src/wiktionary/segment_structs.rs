//! Extracting English words and their IPA pronunciations from the pages of a
//! Wiktionary XML dump, and cutting the dump into pieces that end at page ends.
use vstd::prelude::*;
use crate::text::{
    between, between_str, chars_of, contains_spec, contains_str, push_char, split_chars, split_spec,
};
use crate::trygvejw::utils::vector_utils::index_of_first_match;

verus! {

/// The kinds of page sections.
enum SegmentTypes {
    Pronunciation,
}

/// Helpers over the text of a page.
struct Segment {}

impl Segment {
    /// The lines of `lines`, split at each `'\n'`.
    fn split_lines(lines: &String) -> (res: Vec<String>)
        ensures
            res.deep_view() == split_spec(lines@, seq!['\n']),
    {
        let cs = chars_of(lines.as_str());
        let nl: Vec<char> = vec!['\n'];
        assert(nl@ =~= seq!['\n']);
        split_chars(cs.as_slice(), nl.as_slice())
    }

    /// Whether the page is an English one; every page counts as one.
    fn is_word_english(lines: &Vec<String>) -> (res: bool)
        ensures
            res,
    {
        true
    }
}

/// An English word and its IPA pronunciation.
pub struct WiktionaryPage {
    pub word: String,
    pub ipa_pronontiation: String,
}

impl View for WiktionaryPage {
    /// The word and its pronunciation.
    type V = (Seq<char>, Seq<char>);

    open spec fn view(&self) -> Self::V {
        (self.word@, self.ipa_pronontiation@)
    }
}

/// The first index at or after `from` of a line in which `pat` occurs.
pub open spec fn first_containing(lines: Seq<Seq<char>>, pat: Seq<char>, from: int) -> Option<int>
    decreases lines.len() - from,
{
    if from < 0 || from >= lines.len() {
        None
    } else if contains_spec(lines[from], pat) {
        Some(from)
    } else {
        first_containing(lines, pat, from + 1)
    }
}

/// The index of the first line in which `pat` occurs, or 0 if there is none.
pub open spec fn index_or_zero(lines: Seq<Seq<char>>, pat: Seq<char>) -> int {
    match first_containing(lines, pat, 0) {
        Some(i) => i,
        None => 0,
    }
}

proof fn lemma_first_containing(lines: Seq<Seq<char>>, pat: Seq<char>, from: int, i: int)
    requires
        0 <= from <= i,
        forall|j: int| from <= j < i ==> !contains_spec(lines[j], pat),
    ensures
        i < lines.len() && contains_spec(lines[i], pat) ==> first_containing(lines, pat, from) == Some(i),
        i >= lines.len() ==> first_containing(lines, pat, from) is None,
    decreases i - from,
{
    if from < i {
        lemma_first_containing(lines, pat, from + 1, i);
    } else if i > lines.len() {
    }
}

/// The index of the first of `lines` in which `pat` occurs, or 0 if there is none.
fn first_line_with(lines: &Vec<String>, pat: &str) -> (res: usize)
    ensures
        res == index_or_zero(lines.deep_view(), pat@),
        res == 0 || res < lines@.len(),
{
    let ghost ls = lines.deep_view();
    let holds_pat = |x: &String| -> (found: bool)
        ensures
            found == contains_spec(x@, pat@),
        { contains_str(x.as_str(), pat) };
    let ret = index_of_first_match(holds_pat, lines);
    proof {
        assert forall|j: int| 0 <= j < ret implies !contains_spec(ls[j], pat@) by {
            assert(ls[j] == lines@[j]@);
        }
        if ret < lines@.len() && contains_spec(ls[ret as int], pat@) {
            lemma_first_containing(ls, pat@, 0, ret as int);
        } else {
            assert forall|j: int| 0 <= j < ls.len() implies !contains_spec(ls[j], pat@) by {
                assert(ls[j] == lines@[j]@);
            }
            lemma_first_containing(ls, pat@, 0, ls.len() as int);
        }
    }
    ret
}

/// The text between the first `prefix` and the first `suffix` after it; a
/// missing `prefix` leaves `seartch_str` whole, a missing `suffix` keeps all
/// that follows the prefix. There is always a result.
pub fn get_string_between(prefix: &str, suffix: &str, seartch_str: &String) -> (res: Option<String>)
    ensures
        res matches Some(s) && s@ == between(prefix@, suffix@, seartch_str@),
{
    Some(between_str(prefix, suffix, seartch_str.as_str()))
}

/// The language heading of a page: the text between `==` and `==` on the
/// first line that holds `==`, where that line is not the first one.
pub open spec fn page_language_is(lang: Seq<char>, lines: Seq<Seq<char>>) -> bool {
    let i = index_or_zero(lines, "=="@);
    i > 0 && between("=="@, "=="@, lines[i]) == lang
}

/// Whether the first language heading of the page is `compair_lang`.
pub fn is_page_of_language(compair_lang: &String, lines: &Vec<String>) -> (res: bool)
    ensures
        res == page_language_is(compair_lang@, lines.deep_view()),
{
    let lang_line_index = first_line_with(lines, "==");
    if lang_line_index > 0 {
        let s = between_str("==", "==", lines[lang_line_index].as_str());
        assert(lines.deep_view()[lang_line_index as int] == lines@[lang_line_index as int]@);
        return *compair_lang == s;
    }
    false
}

/// The title of a page: the text between `<title>` and `</title>` on the
/// first line that holds `<title>`, where that line is not the first one.
pub open spec fn page_word(lines: Seq<Seq<char>>) -> Option<Seq<char>> {
    let i = index_or_zero(lines, "<title>"@);
    if i > 0 {
        Some(between("<title>"@, "</title>"@, lines[i]))
    } else {
        None
    }
}

/// The title of a page.
pub fn get_page_word(lines: &Vec<String>) -> (res: Option<String>)
    ensures
        match res {
            Some(w) => page_word(lines.deep_view()) == Some(w@),
            None => page_word(lines.deep_view()) is None,
        },
{
    let lang_line_index = first_line_with(lines, "<title>");
    if lang_line_index > 0 {
        assert(lines.deep_view()[lang_line_index as int] == lines@[lang_line_index as int]@);
        return Some(between_str("<title>", "</title>", lines[lang_line_index].as_str()));
    }
    None
}

/// The pronunciation found by scanning the lines `idx + n` for `n` in
/// `n..10`, with `best` the one kept so far: an IPA template line marked
/// `US` or `GA` replaces it, another one only fills it when it is empty, and
/// a line that is exactly `" "` ends the scan with it (if it is not empty).
pub open spec fn ipa_scan(lines: Seq<Seq<char>>, idx: int, n: int, best: Seq<char>) -> Option<Seq<char>>
    decreases 10 - n,
{
    if n >= 10 || idx + n >= lines.len() || n < 1 {
        None
    } else {
        let line = lines[idx + n];
        let tagged = (contains_spec(line, "US"@) || contains_spec(line, "GA"@)) && contains_spec(
            line,
            "{{IPA|en|/"@,
        );
        let best1 = if tagged {
            between("{{IPA|en|/"@, "/"@, line)
        } else {
            best
        };
        if contains_spec(line, "{{IPA|en|/"@) && best1.len() == 0 {
            ipa_scan(lines, idx, n + 1, between("{{IPA|en|/"@, "/"@, line))
        } else if line == " "@ {
            if best1.len() == 0 {
                None
            } else {
                Some(best1)
            }
        } else {
            ipa_scan(lines, idx, n + 1, best1)
        }
    }
}

/// The IPA pronunciation of a page, scanned for on the nine lines after the
/// first one that holds `===Pronunciation===` (or after the first line).
pub open spec fn page_ipa(lines: Seq<Seq<char>>) -> Option<Seq<char>> {
    ipa_scan(lines, index_or_zero(lines, "===Pronunciation==="@), 1, seq![])
}

/// A line that is exactly `" "` holds no IPA template and no `US` or `GA` tag.
proof fn lemma_blank_line_is_plain()
    ensures
        !contains_spec(" "@, "{{IPA|en|/"@),
        !contains_spec(" "@, "US"@),
        !contains_spec(" "@, "GA"@),
{
    reveal_strlit(" ");
    reveal_strlit("{{IPA|en|/");
    reveal_strlit("US");
    reveal_strlit("GA");
}

/// Before the first blank line the scan goes on, whatever it keeps.
proof fn lemma_scan_reaches(lines: Seq<Seq<char>>, idx: int, n: int, a: int, best: Seq<char>)
    requires
        1 <= n <= a < 10,
        0 <= idx,
        idx + a < lines.len(),
        forall|j: int| idx + n <= j < idx + a ==> #[trigger] lines[j] != " "@,
    ensures
        exists|b: Seq<char>| ipa_scan(lines, idx, n, best) == #[trigger] ipa_scan(lines, idx, a, b),
    decreases a - n,
{
    if n == a {
        assert(ipa_scan(lines, idx, n, best) == ipa_scan(lines, idx, a, best));
    } else {
        let line = lines[idx + n];
        let tagged = (contains_spec(line, "US"@) || contains_spec(line, "GA"@)) && contains_spec(
            line,
            "{{IPA|en|/"@,
        );
        let best1 = if tagged {
            between("{{IPA|en|/"@, "/"@, line)
        } else {
            best
        };
        let next = if contains_spec(line, "{{IPA|en|/"@) && best1.len() == 0 {
            between("{{IPA|en|/"@, "/"@, line)
        } else {
            best1
        };
        assert(ipa_scan(lines, idx, n, best) == ipa_scan(lines, idx, n + 1, next));
        lemma_scan_reaches(lines, idx, n + 1, a, next);
    }
}

/// After a kept pronunciation, lines without a tagged IPA template up to a
/// blank line end the scan with it.
proof fn lemma_scan_keeps(lines: Seq<Seq<char>>, idx: int, n: int, b: int, v: Seq<char>)
    requires
        1 <= n <= b < 10,
        0 <= idx,
        idx + b < lines.len(),
        v.len() > 0,
        lines[idx + b] == " "@,
        forall|j: int|
            idx + n <= j < idx + b ==> #[trigger] lines[j] != " "@ && !((contains_spec(lines[j], "US"@)
                || contains_spec(lines[j], "GA"@)) && contains_spec(lines[j], "{{IPA|en|/"@)),
    ensures
        ipa_scan(lines, idx, n, v) == Some(v),
    decreases b - n,
{
    lemma_blank_line_is_plain();
    if n < b {
        lemma_scan_keeps(lines, idx, n + 1, b, v);
    }
}

/// A pronunciation tagged `US` or `GA` is the page's pronunciation where it
/// stands among the nine lines scanned after the pronunciation heading, is
/// not empty, and a blank line follows it with no IPA template between:
/// it wins over any untagged pronunciation before it.
pub proof fn law_tagged_pronunciation_wins(lines: Seq<Seq<char>>, a: int, b: int)
    requires
        1 <= a < b < 10,
        index_or_zero(lines, "===Pronunciation==="@) + b < lines.len(),
        ({
            let idx = index_or_zero(lines, "===Pronunciation==="@);
            let line = lines[idx + a];
            &&& contains_spec(line, "US"@) || contains_spec(line, "GA"@)
            &&& contains_spec(line, "{{IPA|en|/"@)
            &&& between("{{IPA|en|/"@, "/"@, line).len() > 0
            &&& lines[idx + b] == " "@
            &&& forall|j: int| idx + 1 <= j < idx + a ==> #[trigger] lines[j] != " "@
            &&& forall|j: int|
                idx + a < j < idx + b ==> #[trigger] lines[j] != " "@ && !contains_spec(lines[j], "{{IPA|en|/"@)
        }),
    ensures
        page_ipa(lines) == Some(
            between("{{IPA|en|/"@, "/"@, lines[index_or_zero(lines, "===Pronunciation==="@) + a]),
        ),
{
    let idx = index_or_zero(lines, "===Pronunciation==="@);
    assert(idx >= 0) by {
        match first_containing(lines, "===Pronunciation==="@, 0) {
            Some(i) => {
                lemma_first_containing_bounds(lines, "===Pronunciation==="@, 0);
            },
            None => {},
        }
    }
    let line = lines[idx + a];
    let v = between("{{IPA|en|/"@, "/"@, line);
    lemma_scan_reaches(lines, idx, 1, a, seq![]);
    let b0 = choose|b0: Seq<char>| ipa_scan(lines, idx, 1, seq![]) == #[trigger] ipa_scan(lines, idx, a, b0);
    assert(line != " "@) by {
        lemma_blank_line_is_plain();
    }
    assert(ipa_scan(lines, idx, a, b0) == ipa_scan(lines, idx, a + 1, v));
    lemma_scan_keeps(lines, idx, a + 1, b, v);
}

/// Lines without an IPA template and not blank leave the scan where it was.
proof fn lemma_scan_skips_plain(lines: Seq<Seq<char>>, idx: int, n: int, a: int)
    requires
        1 <= n <= a < 10,
        0 <= idx,
        idx + a < lines.len(),
        forall|j: int|
            idx + n <= j < idx + a ==> #[trigger] lines[j] != " "@ && !contains_spec(lines[j], "{{IPA|en|/"@),
    ensures
        ipa_scan(lines, idx, n, seq![]) == ipa_scan(lines, idx, a, seq![]),
    decreases a - n,
{
    if n < a {
        lemma_scan_skips_plain(lines, idx, n + 1, a);
    }
}

/// The first pronunciation on the scanned lines is the page's pronunciation
/// where it is not empty and no tagged one follows it before a blank line:
/// later untagged pronunciations do not replace it.
pub proof fn law_first_pronunciation_kept(lines: Seq<Seq<char>>, a: int, b: int)
    requires
        1 <= a < b < 10,
        index_or_zero(lines, "===Pronunciation==="@) + b < lines.len(),
        ({
            let idx = index_or_zero(lines, "===Pronunciation==="@);
            let line = lines[idx + a];
            &&& contains_spec(line, "{{IPA|en|/"@)
            &&& between("{{IPA|en|/"@, "/"@, line).len() > 0
            &&& lines[idx + b] == " "@
            &&& forall|j: int|
                idx + 1 <= j < idx + a ==> #[trigger] lines[j] != " "@ && !contains_spec(lines[j], "{{IPA|en|/"@)
            &&& forall|j: int|
                idx + a < j < idx + b ==> #[trigger] lines[j] != " "@ && !((contains_spec(lines[j], "US"@)
                    || contains_spec(lines[j], "GA"@)) && contains_spec(lines[j], "{{IPA|en|/"@))
        }),
    ensures
        page_ipa(lines) == Some(
            between("{{IPA|en|/"@, "/"@, lines[index_or_zero(lines, "===Pronunciation==="@) + a]),
        ),
{
    let idx = index_or_zero(lines, "===Pronunciation==="@);
    assert(idx >= 0) by {
        lemma_first_containing_bounds(lines, "===Pronunciation==="@, 0);
    }
    let line = lines[idx + a];
    let v = between("{{IPA|en|/"@, "/"@, line);
    lemma_scan_skips_plain(lines, idx, 1, a);
    assert(line != " "@) by {
        lemma_blank_line_is_plain();
    }
    assert(ipa_scan(lines, idx, a, seq![]) == ipa_scan(lines, idx, a + 1, v));
    lemma_scan_keeps(lines, idx, a + 1, b, v);
}

/// The line found is at or after `from`.
proof fn lemma_first_containing_bounds(lines: Seq<Seq<char>>, pat: Seq<char>, from: int)
    ensures
        first_containing(lines, pat, from) matches Some(i) ==> from <= i < lines.len() && 0 <= i,
    decreases lines.len() - from,
{
    if !(from < 0 || from >= lines.len()) && !contains_spec(lines[from], pat) {
        lemma_first_containing_bounds(lines, pat, from + 1);
    }
}

/// The IPA pronunciation of a page.
pub fn get_page_IPA_pronontiation(lines: &Vec<String>) -> (res: Option<String>)
    ensures
        match res {
            Some(p) => page_ipa(lines.deep_view()) == Some(p@),
            None => page_ipa(lines.deep_view()) is None,
        },
{
    let ghost ls = lines.deep_view();
    let pronotiation_index = first_line_with(lines, "===Pronunciation===");
    let len = lines.len();
    let mut best = String::new();
    let blank = String::from_str(" ");
    let mut n: usize = 1;
    while n < 10
        invariant
            blank@ == " "@,
            1 <= n <= 10,
            len == lines@.len(),
            ls == lines.deep_view(),
            pronotiation_index == 0 || pronotiation_index < len,
            page_ipa(ls) == ipa_scan(ls, pronotiation_index as int, n as int, best@),
        decreases 10 - n,
    {
        if n >= len - pronotiation_index {
            return None;
        }
        let line = &lines[pronotiation_index + n];
        assert(ls[pronotiation_index + n] == line@);
        let has_ipa = contains_str(line.as_str(), "{{IPA|en|/");
        if (contains_str(line.as_str(), "US") || contains_str(line.as_str(), "GA")) && has_ipa {
            best = between_str("{{IPA|en|/", "/", line.as_str());
        }
        if has_ipa && best.as_str().is_empty() {
            best = between_str("{{IPA|en|/", "/", line.as_str());
        } else if *line == blank {
            if best.as_str().is_empty() {
                return None;
            } else {
                return Some(best);
            }
        }
        n += 1;
    }
    None
}

/// The word and pronunciation of an English page: its title (when it holds
/// no `:`) and its IPA pronunciation.
pub open spec fn page_of(lines: Seq<Seq<char>>) -> Option<(Seq<char>, Seq<char>)> {
    if !page_language_is("English"@, lines) {
        None
    } else {
        match page_word(lines) {
            None => None,
            Some(w) => if contains_spec(w, ":"@) {
                None
            } else {
                match page_ipa(lines) {
                    None => None,
                    Some(ipa) => Some((w, ipa)),
                }
            },
        }
    }
}

/// The word and pronunciation that the lines of one page give, if it is an
/// English page with a plain title and a pronunciation.
pub fn parse_page_block(lines: &Vec<String>) -> (res: Option<WiktionaryPage>)
    ensures
        match res {
            Some(p) => page_of(lines.deep_view()) == Some(p@),
            None => page_of(lines.deep_view()) is None,
        },
{
    let english = String::from_str("English");
    let is_english = is_page_of_language(&english, lines);
    if is_english {
        let word_option = match get_page_word(lines) {
            Some(w) => w,
            None => return None,
        };
        if !contains_str(word_option.as_str(), ":") {
            let ipa = match get_page_IPA_pronontiation(lines) {
                Some(p) => p,
                None => return None,
            };
            return Some(WiktionaryPage { word: word_option, ipa_pronontiation: ipa });
        }
    }
    None
}

/// The views of a sequence of pages.
pub open spec fn pages_view(ps: Seq<WiktionaryPage>) -> Seq<(Seq<char>, Seq<char>)> {
    ps.map_values(|p: WiktionaryPage| p@)
}

/// The pages that a closed block of lines adds: its page, if it has one.
pub open spec fn found_pages(lines: Seq<Seq<char>>) -> Seq<(Seq<char>, Seq<char>)> {
    match page_of(lines) {
        Some(p) => seq![p],
        None => seq![],
    }
}

/// Collects the lines of a dump into pages and keeps the English words
/// found in them.
pub struct PageReader {
    page_buffer: Vec<String>,
    pages: Vec<WiktionaryPage>,
}

impl PageReader {
    /// The lines of the page under way.
    pub closed spec fn buffered(&self) -> Seq<Seq<char>> {
        self.page_buffer.deep_view()
    }

    /// The words found so far.
    pub closed spec fn found(&self) -> Seq<(Seq<char>, Seq<char>)> {
        pages_view(self.pages@)
    }

    /// A reader with no lines and no words.
    pub fn new() -> (res: PageReader)
        ensures
            res.buffered() == Seq::<Seq<char>>::empty(),
            res.found() == Seq::<(Seq<char>, Seq<char>)>::empty(),
    {
        let res = PageReader { page_buffer: Vec::new(), pages: Vec::new() };
        assert(res.buffered() =~= Seq::<Seq<char>>::empty());
        assert(res.found() =~= Seq::<(Seq<char>, Seq<char>)>::empty());
        res
    }

    /// Takes the next line of the dump; a line holding `</page>` closes the
    /// page, whose lines are then parsed and dropped.
    pub fn push_line(&mut self, line: String)
        ensures
            ({
                let lines = old(self).buffered().push(line@);
                if contains_spec(line@, "</page>"@) {
                    &&& final(self).buffered() == Seq::<Seq<char>>::empty()
                    &&& final(self).found() == old(self).found() + found_pages(lines)
                } else {
                    &&& final(self).buffered() == lines
                    &&& final(self).found() == old(self).found()
                }
            }),
    {
        let closes = contains_str(line.as_str(), "</page>");
        let ghost b0 = self.page_buffer.deep_view();
        self.page_buffer.push(line);
        assert(self.page_buffer.deep_view() =~= b0.push(line@));
        if closes {
            let ghost f0 = self.found();
            match parse_page_block(&self.page_buffer) {
                Some(v) => {
                    self.pages.push(v);
                    assert(self.found() =~= f0.push(v@));
                },
                None => {
                    assert(self.found() =~= f0 + seq![]);
                },
            }
            self.page_buffer.clear();
            assert(self.buffered() =~= Seq::<Seq<char>>::empty());
        }
    }

    /// The words found.
    pub fn into_pages(self) -> (res: Vec<WiktionaryPage>)
        ensures
            pages_view(res@) == self.found(),
    {
        self.pages
    }
}

/// The line that a found word takes in the log: `word@pronunciation`.
pub open spec fn log_line_of(p: (Seq<char>, Seq<char>)) -> Seq<char> {
    p.0 + seq!['@'] + p.1 + seq!['\n']
}

/// The log line of a found word.
pub fn log_line(page: &WiktionaryPage) -> (res: String)
    ensures
        res@ == log_line_of(page@),
{
    let mut line = page.word.clone();
    push_char(&mut line, '@');
    line.append(page.ipa_pronontiation.as_str());
    push_char(&mut line, '\n');
    assert(line@ =~= log_line_of(page@));
    line
}

/// A stretch `start..end` of the dump, in bytes.
pub struct FileSegment {
    start: usize,
    end: usize,
}

impl FileSegment {
    /// The first byte of the stretch.
    pub closed spec fn first(&self) -> usize {
        self.start
    }

    /// Where the stretch ends.
    pub closed spec fn last(&self) -> usize {
        self.end
    }

    /// The first byte of the stretch.
    pub fn start(&self) -> (res: usize)
        ensures
            res == self.first(),
    {
        self.start
    }

    /// Where the stretch ends.
    pub fn end(&self) -> (res: usize)
        ensures
            res == self.last(),
    {
        self.end
    }
}

/// Reads the pages of one stretch of the dump: the lines read from its start
/// are taken while the position after them stays before its end.
pub struct SegmentReader {
    position: usize,
    end: usize,
    reader: PageReader,
}

impl SegmentReader {
    /// The position in the dump after the lines read so far.
    pub closed spec fn position(&self) -> usize {
        self.position
    }

    /// Where the stretch ends.
    pub closed spec fn end(&self) -> usize {
        self.end
    }

    /// The pages under way and found.
    pub closed spec fn reader(&self) -> PageReader {
        self.reader
    }

    /// A reader at the start of `segment`.
    pub fn new(segment: &FileSegment) -> (res: SegmentReader)
        ensures
            res.position() == segment.first(),
            res.end() == segment.last(),
            res.reader().buffered() == Seq::<Seq<char>>::empty(),
            res.reader().found() == Seq::<(Seq<char>, Seq<char>)>::empty(),
    {
        SegmentReader { position: segment.start, end: segment.end, reader: PageReader::new() }
    }

    /// The position in the dump after the lines read so far.
    pub fn current_position(&self) -> (res: usize)
        ensures
            res == self.position(),
    {
        self.position
    }

    /// Takes a line of `bytes_read` bytes (0 at the end of the file) and
    /// tells whether to read another one: a line that reaches the end of the
    /// stretch is dropped and stops the reading, and so does the end of the file.
    pub fn read_line(&mut self, line: String, bytes_read: usize) -> (more: bool)
        requires
            old(self).position() + bytes_read <= usize::MAX,
        ensures
            final(self).position() == old(self).position() + bytes_read,
            final(self).end() == old(self).end(),
            if final(self).position() >= old(self).end() {
                &&& !more
                &&& final(self).reader() == old(self).reader()
            } else {
                &&& more == (bytes_read > 0)
                &&& ({
                    let lines = old(self).reader().buffered().push(line@);
                    if contains_spec(line@, "</page>"@) {
                        &&& final(self).reader().buffered() == Seq::<Seq<char>>::empty()
                        &&& final(self).reader().found() == old(self).reader().found()
                            + found_pages(lines)
                    } else {
                        &&& final(self).reader().buffered() == lines
                        &&& final(self).reader().found() == old(self).reader().found()
                    }
                })
            },
    {
        self.position = self.position + bytes_read;
        if self.position >= self.end {
            return false;
        }
        self.reader.push_line(line);
        bytes_read > 0
    }

    /// The words found.
    pub fn into_pages(self) -> (res: Vec<WiktionaryPage>)
        ensures
            pages_view(res@) == self.reader().found(),
    {
        self.reader.into_pages()
    }
}

/// How the scan for the end of a cut stands.
#[derive(PartialEq, Eq, Structural, Debug)]
pub enum CutScan {
    /// The last line read closes a page: the cut ends here.
    PageEnd,
    /// The end of the file is reached: the cut ends there.
    FileEnd,
    /// Read another line.
    ReadMore,
}

/// Plans where to cut the dump into stretches, one per worker, each ending
/// after a line that closes a page.
pub struct SegmentPlanner {
    file_size: usize,
    interval: usize,
    cuts_left: usize,
    segments: Vec<FileSegment>,
    seek_start: usize,
    position: usize,
}

/// The view of a stretch: its start and end.
pub open spec fn segment_view(s: FileSegment) -> (usize, usize) {
    (s.first(), s.last())
}

/// The views of a sequence of stretches.
pub open spec fn segments_view(ss: Seq<FileSegment>) -> Seq<(usize, usize)> {
    ss.map_values(|s: FileSegment| segment_view(s))
}

impl SegmentPlanner {
    /// The size of the dump.
    pub closed spec fn file_size(&self) -> usize {
        self.file_size
    }

    /// The distance from the start of a stretch to where its end is looked for.
    pub closed spec fn interval(&self) -> usize {
        self.interval
    }

    /// How many stretches are still to be cut before the last one.
    pub closed spec fn cuts_left(&self) -> usize {
        self.cuts_left
    }

    /// The stretches cut so far.
    pub closed spec fn cut(&self) -> Seq<(usize, usize)> {
        segments_view(self.segments@)
    }

    /// Where the stretch under way starts.
    pub closed spec fn seek_start(&self) -> usize {
        self.seek_start
    }

    /// The position reached in the stretch under way.
    pub closed spec fn position(&self) -> usize {
        self.position
    }

    /// Where the next stretch starts: at 0, or just after the end of the last one.
    pub open spec fn next_start(cut: Seq<(usize, usize)>) -> int {
        if cut.len() == 0 {
            0
        } else {
            cut.last().1 + 1
        }
    }

    /// A planner for a dump of `file_size` bytes and `workers` workers: it cuts
    /// `workers - 1` stretches, at intervals of `file_size / workers` bytes.
    pub fn new(file_size: usize, workers: usize) -> (res: SegmentPlanner)
        requires
            workers > 0,
        ensures
            res.file_size() == file_size,
            res.interval() == file_size / workers,
            res.cuts_left() == workers - 1,
            res.cut() == Seq::<(usize, usize)>::empty(),
    {
        let res = SegmentPlanner {
            file_size,
            interval: file_size / workers,
            cuts_left: workers - 1,
            segments: Vec::new(),
            seek_start: 0,
            position: 0,
        };
        assert(res.cut() =~= Seq::<(usize, usize)>::empty());
        res
    }

    /// Whether stretches are still to be cut.
    pub fn has_cuts_left(&self) -> (res: bool)
        ensures
            res == (self.cuts_left() > 0),
    {
        self.cuts_left > 0
    }

    /// Starts the next cut: its stretch starts where the last one ended, and
    /// its end is looked for one interval further on, where the dump is to be
    /// read from (returned). `None` where those positions overflow.
    pub fn begin_cut(&mut self) -> (res: Option<usize>)
        ensures
            final(self).file_size() == old(self).file_size(),
            final(self).interval() == old(self).interval(),
            final(self).cuts_left() == old(self).cuts_left(),
            final(self).cut() == old(self).cut(),
            match res {
                Some(p) => {
                    &&& final(self).seek_start() == Self::next_start(old(self).cut())
                    &&& final(self).position() == final(self).seek_start() + old(self).interval()
                    &&& p == final(self).position()
                },
                None => Self::next_start(old(self).cut()) + old(self).interval() > usize::MAX,
            },
    {
        let n = self.segments.len();
        let seek_start = if n == 0 {
            0
        } else {
            let last_end = self.segments[n - 1].end;
            assert(self.cut().last().1 == last_end);
            if last_end == usize::MAX {
                return None;
            }
            last_end + 1
        };
        if seek_start > usize::MAX - self.interval {
            return None;
        }
        self.seek_start = seek_start;
        self.position = seek_start + self.interval;
        Some(self.position)
    }

    /// Whether the cut under way ends, given the last line read (empty before
    /// the first): at a line holding `</page>`, else at the end of the file.
    pub fn check(&self, last_line: &str) -> (res: CutScan)
        ensures
            res == if contains_spec(last_line@, "</page>"@) {
                CutScan::PageEnd
            } else if self.position() >= self.file_size() {
                CutScan::FileEnd
            } else {
                CutScan::ReadMore
            },
    {
        if contains_str(last_line, "</page>") {
            CutScan::PageEnd
        } else if self.position >= self.file_size {
            CutScan::FileEnd
        } else {
            CutScan::ReadMore
        }
    }

    /// Moves the position of the cut under way past a line of `bytes_read`
    /// bytes; `false` (and no move) where the position would overflow.
    pub fn record_line(&mut self, bytes_read: usize) -> (res: bool)
        ensures
            final(self).file_size() == old(self).file_size(),
            final(self).interval() == old(self).interval(),
            final(self).cuts_left() == old(self).cuts_left(),
            final(self).cut() == old(self).cut(),
            final(self).seek_start() == old(self).seek_start(),
            res == (old(self).position() + bytes_read <= usize::MAX),
            res ==> final(self).position() == old(self).position() + bytes_read,
            !res ==> final(self).position() == old(self).position(),
    {
        if self.position > usize::MAX - bytes_read {
            return false;
        }
        self.position = self.position + bytes_read;
        true
    }

    /// Ends the cut under way at the position reached.
    pub fn end_cut(&mut self)
        requires
            old(self).cuts_left() > 0,
        ensures
            final(self).file_size() == old(self).file_size(),
            final(self).interval() == old(self).interval(),
            final(self).cuts_left() == old(self).cuts_left() - 1,
            final(self).cut() == old(self).cut().push((old(self).seek_start(), old(self).position())),
    {
        let ghost c0 = self.cut();
        self.segments.push(FileSegment { start: self.seek_start, end: self.position });
        self.cuts_left = self.cuts_left - 1;
        assert(self.cut() =~= c0.push((self.seek_start, self.position)));
    }

    /// All the stretches: those cut, and the last one, from just after the
    /// last cut to the end of the file. `None` where that start overflows.
    pub fn finish(self) -> (res: Option<Vec<FileSegment>>)
        requires
            self.cut().len() > 0,
        ensures
            match res {
                Some(v) => segments_view(v@) == self.cut().push(
                    ((self.cut().last().1 + 1) as usize, self.file_size()),
                ),
                None => self.cut().last().1 == usize::MAX,
            },
    {
        let mut segments = self.segments;
        let n = segments.len();
        let last_end = segments[n - 1].end;
        if last_end == usize::MAX {
            return None;
        }
        let ghost c0 = segments_view(segments@);
        segments.push(FileSegment { start: last_end + 1, end: self.file_size });
        assert(segments_view(segments@) =~= c0.push(((last_end + 1) as usize, self.file_size)));
        Some(segments)
    }
}

} // verus!
