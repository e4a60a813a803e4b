//! Translating the words of the CMU dictionary into numbers straight from
//! their ARPAbet symbols, through a table whose numbers are single digits.
use std::collections::HashMap;
use vstd::prelude::*;
use crate::cmu_parser::{
    cmu_dictionary, cmu_entries, cmu_entry, cmu_symbols, dictionary_lines, translate_all,
    CMU_HEADER_LINES,
};
use crate::symbol_map::lookup;
use crate::number_word_translator::occurrences;
use crate::numbers::{digit_char, digit_to_char};
use crate::sound_table::{
    check_walk, read_sound_table, sound_table_of, sound_walk, table_view, walk_lists, TableLayout,
};
use crate::text::{
    chars_of, lines_spec, push_char, read_lines, remove_numerals, split_chars, split_once,
    split_once_spec, without_numerals,
};
pub use crate::util::strip_newline;

verus! {

/// A number and the sounds that stand for it.
struct SoundNumberPair {
    number: i32,
    letter: Vec<String>,
}

/// A word, the number that its sounds spell, and its ARPAbet symbols.
pub struct WordNumberPair {
    pub number: String,
    pub word: String,
    pub arpabet_pronon: Vec<String>,
}

impl View for WordNumberPair {
    /// The number, the word and its symbols.
    type V = (Seq<char>, Seq<char>, Seq<Seq<char>>);

    open spec fn view(&self) -> Self::V {
        (self.number@, self.word@, self.arpabet_pronon.deep_view())
    }
}

/// A dictionary word and its ARPAbet symbols.
pub struct CmuWord {
    pub word: String,
    pub arpabet_pronon: Vec<String>,
}

impl View for CmuWord {
    /// The word and its symbols.
    type V = (Seq<char>, Seq<Seq<char>>);

    open spec fn view(&self) -> Self::V {
        (self.word@, self.arpabet_pronon.deep_view())
    }
}

/// The digits that `sym` stands for: the digit of each number in the walk,
/// once for every time that its symbols hold `sym`. `None` where a number
/// that holds it is not a single digit.
pub open spec fn all_digits_for(walk: Seq<(i32, Seq<Seq<char>>)>, sym: Seq<char>) -> Option<Seq<char>>
    decreases walk.len(),
{
    if walk.len() == 0 {
        Some(seq![])
    } else {
        match all_digits_for(walk.drop_last(), sym) {
            None => None,
            Some(d) => {
                let (k, syms) = walk.last();
                let c = occurrences(syms, sym);
                if c == 0 {
                    Some(d)
                } else if 0 <= k <= 9 {
                    Some(d + Seq::new(c, |_i: int| digit_char(k as int)))
                } else {
                    None
                }
            },
        }
    }
}

/// The digits of a whole pronunciation, or `None` where a symbol has a number
/// that is not a single digit.
pub open spec fn cmu_number_of(walk: Seq<(i32, Seq<Seq<char>>)>, syms: Seq<Seq<char>>) -> Option<Seq<char>>
    decreases syms.len(),
{
    if syms.len() == 0 {
        Some(seq![])
    } else {
        match (cmu_number_of(walk, syms.drop_last()), all_digits_for(walk, syms.last())) {
            (Some(a), Some(b)) => Some(a + b),
            _ => None,
        }
    }
}

/// A table of digits and sounds.
pub struct WordNumberTranslator {
    number_sound_map: HashMap<i32, Vec<String>>,
}

impl WordNumberTranslator {
    /// The digit–sound table: each number with its sound symbols.
    pub closed spec fn table(&self) -> Map<i32, Seq<Seq<char>>> {
        table_view(self.number_sound_map@)
    }

    /// The entries of the table in the order in which it is walked.
    pub closed spec fn walk(&self) -> Seq<(i32, Seq<Seq<char>>)> {
        sound_walk(&self.number_sound_map)
    }

    /// A translator whose table is read from the text of a table file, in
    /// which each line is a one-character number, one separator character, and
    /// the symbols separated by `,` graphemes; `None` if a line does not start
    /// with a number.
    /// A malformed input is no panic here: it is reported as `None`, for the
    /// caller to stop on.
    pub fn new(map_file_text: &str) -> (res: Option<WordNumberTranslator>)
        ensures
            match res {
                Some(t) => {
                    &&& sound_table_of(map_file_text@, TableLayout::Leading) == Some(t.table())
                    &&& walk_lists(t.walk(), t.table())
                },
                None => sound_table_of(map_file_text@, TableLayout::Leading) is None,
            },
    {
        match get_letter_number_pair(map_file_text) {
            None => None,
            Some(map) => {
                check_walk(&map);
                Some(WordNumberTranslator { number_sound_map: map })
            },
        }
    }

    /// Appends to `out` the digits that `sym` stands for; `false` where a
    /// number that holds it is not a single digit.
    fn digits_of_symbol(&self, sym: &String, out: &mut String) -> (ok: bool)
        ensures
            match all_digits_for(self.walk(), sym@) {
                Some(d) => ok && final(out)@ == old(out)@ + d,
                None => !ok,
            },
    {
        let ghost walk = self.walk();
        let ghost start = out@;
        let mut ok = true;
        assert(out@ =~= start + seq![]);
        for entry in it: self.number_sound_map.iter()
            invariant
                walk == it.seq().unref().map_values(|p: (i32, Vec<String>)| (p.0, p.1.deep_view())),
                match all_digits_for(walk.take(it.index()), sym@) {
                    Some(d) => ok && out@ == start + d,
                    None => !ok,
                },
        {
            let (k, v) = entry;
            let ghost i = it.index();
            assert(walk.take(i + 1).drop_last() =~= walk.take(i));
            assert(walk.take(i + 1).last() == (*k, v.deep_view()));
            if ok {
                let c = count_symbol(v, sym);
                if c > 0 {
                    if 0 <= *k && *k <= 9 {
                        let d = digit_of(*k);
                        let ghost before = out@;
                        push_repeated(out, d, c);
                        assert(out@ =~= start + (before.subrange(start.len() as int, before.len() as int)
                            + Seq::new(c as nat, |_i: int| digit_char(*k as int))));
                    } else {
                        ok = false;
                    }
                }
            }
        }
        assert(walk.take(walk.len() as int) =~= walk);
        ok
    }

    /// The word with the number that its symbols spell: for each symbol, in
    /// order, the digits it stands for. `None` where a number that holds one of
    /// the symbols is not a single digit, which no one character can stand for.
    /// A malformed input is no panic here: it is reported as `None`, for the
    /// caller to stop on.
    fn translate_cmu_word(&self, word: CmuWord) -> (res: Option<WordNumberPair>)
        ensures
            match cmu_number_of(self.walk(), word.arpabet_pronon.deep_view()) {
                Some(number) => res matches Some(p) && p@ == (number, word.word@,
                    word.arpabet_pronon.deep_view()),
                None => res is None,
            },
    {
        let ghost syms = word.arpabet_pronon.deep_view();
        let mut pronon_num = String::new();
        let n = word.arpabet_pronon.len();
        let mut i: usize = 0;
        while i < n
            invariant
                n == word.arpabet_pronon@.len(),
                syms == word.arpabet_pronon.deep_view(),
                i <= n,
                cmu_number_of(self.walk(), syms.take(i as int)) == Some(pronon_num@),
            decreases n - i,
        {
            assert(syms.take(i + 1).drop_last() =~= syms.take(i as int));
            assert(syms.take(i + 1).last() == word.arpabet_pronon@[i as int]@);
            if !self.digits_of_symbol(&word.arpabet_pronon[i], &mut pronon_num) {
                proof {
                    lemma_cmu_number_fails(self.walk(), syms, i as int);
                }
                return None;
            }
            i += 1;
        }
        assert(syms.take(n as int) =~= syms);
        Some(WordNumberPair { word: word.word, number: pronon_num, arpabet_pronon: word.arpabet_pronon })
    }
}

/// Once a prefix of the symbols has no number, none of the longer ones has.
proof fn lemma_cmu_number_fails(walk: Seq<(i32, Seq<Seq<char>>)>, syms: Seq<Seq<char>>, i: int)
    requires
        0 <= i < syms.len(),
        cmu_number_of(walk, syms.take(i + 1)) is None,
    ensures
        cmu_number_of(walk, syms) is None,
    decreases syms.len() - i,
{
    if i + 1 < syms.len() {
        assert(syms.take(i + 2).drop_last() =~= syms.take(i + 1));
        lemma_cmu_number_fails(walk, syms, i + 1);
    } else {
        assert(syms.take(i + 1) =~= syms);
    }
}

/// How many of `v` are `sym`.
fn count_symbol(v: &Vec<String>, sym: &String) -> (c: usize)
    ensures
        c == occurrences(v.deep_view(), sym@),
{
    let ghost syms = v.deep_view();
    let n = v.len();
    let mut c: usize = 0;
    let mut j: usize = 0;
    while j < n
        invariant
            n == v@.len(),
            syms == v.deep_view(),
            j <= n,
            c <= j,
            c == occurrences(syms.take(j as int), sym@),
        decreases n - j,
    {
        assert(syms.take(j + 1).drop_last() =~= syms.take(j as int));
        assert(syms.take(j + 1).last() == v@[j as int]@);
        if v[j] == *sym {
            c += 1;
        }
        j += 1;
    }
    assert(syms.take(n as int) =~= syms);
    c
}

/// The character of the digit `k`.
fn digit_of(k: i32) -> (c: char)
    requires
        0 <= k <= 9,
    ensures
        c == digit_char(k as int),
{
    digit_to_char(k as u32)
}

/// Appends `count` copies of `c` to `out`.
fn push_repeated(out: &mut String, c: char, count: usize)
    ensures
        final(out)@ == old(out)@ + Seq::new(count as nat, |_i: int| c),
{
    let mut j: usize = 0;
    while j < count
        invariant
            j <= count,
            out@ == old(out)@ + Seq::new(j as nat, |_i: int| c),
        decreases count - j,
    {
        push_char(out, c);
        assert(out@ =~= old(out)@ + Seq::new((j + 1) as nat, |_i: int| c));
        j += 1;
    }
}

/// Reads the digit–sound table from the text of its file: each line is a
/// one-character number, one separator character, and the symbols separated
/// by `,` graphemes, and ends with `'\n'`.
/// A malformed input is no panic here: it is reported as `None`, for the
/// caller to stop on.
pub fn get_letter_number_pair(text: &str) -> (res: Option<HashMap<i32, Vec<String>>>)
    ensures
        match res {
            Some(m) => sound_table_of(text@, TableLayout::Leading) == Some(table_view(m@)),
            None => sound_table_of(text@, TableLayout::Leading) is None,
        },
{
    read_sound_table(text, TableLayout::Leading)
}

/// The word and the ARPAbet symbols (without their numerals) on one
/// dictionary line; `None` if the line has no two spaces.
pub open spec fn cmu_word_entry(line: Seq<char>) -> Option<(Seq<char>, Seq<Seq<char>>)> {
    match split_once_spec(line, seq![' ', ' ']) {
        None => None,
        Some((word, pronunciation)) => Some((word, cmu_symbols(pronunciation))),
    }
}

/// The words of the lines `lines`, or `None` if one line has none.
pub open spec fn cmu_word_entries(lines: Seq<Seq<char>>) -> Option<Seq<(Seq<char>, Seq<Seq<char>>)>>
    decreases lines.len(),
{
    if lines.len() == 0 {
        Some(seq![])
    } else {
        match (cmu_word_entries(lines.drop_last()), cmu_word_entry(lines.last())) {
            (Some(r), Some(e)) => Some(r.push(e)),
            _ => None,
        }
    }
}

/// The views of a sequence of dictionary words.
pub open spec fn cmu_words_view(ws: Seq<CmuWord>) -> Seq<(Seq<char>, Seq<Seq<char>>)> {
    ws.map_values(|w: CmuWord| w@)
}

/// The views of a sequence of translated words.
pub open spec fn number_pairs_view(ws: Seq<WordNumberPair>) -> Seq<(Seq<char>, Seq<char>, Seq<Seq<char>>)> {
    ws.map_values(|w: WordNumberPair| w@)
}

proof fn lemma_word_entries_fail(lines: Seq<Seq<char>>, i: int)
    requires
        0 <= i < lines.len(),
        cmu_word_entries(lines.take(i + 1)) is None,
    ensures
        cmu_word_entries(lines) is None,
    decreases lines.len() - i,
{
    if i + 1 < lines.len() {
        assert(lines.take(i + 2).drop_last() =~= lines.take(i + 1));
        lemma_word_entries_fail(lines, i + 1);
    } else {
        assert(lines.take(i + 1) =~= lines);
    }
}

/// The word and ARPAbet symbols of one dictionary line.
fn load_word(line: &str) -> (res: Option<CmuWord>)
    ensures
        match res {
            Some(w) => cmu_word_entry(line@) == Some(w@),
            None => cmu_word_entry(line@) is None,
        },
{
    let cs = chars_of(line);
    let two_spaces: Vec<char> = vec![' ', ' '];
    assert(two_spaces@ =~= seq![' ', ' ']);
    match split_once(cs.as_slice(), two_spaces.as_slice()) {
        None => None,
        Some((word, pronunciation)) => {
            let pc = chars_of(pronunciation.as_str());
            let space: Vec<char> = vec![' '];
            assert(space@ =~= seq![' ']);
            let pieces = split_chars(pc.as_slice(), space.as_slice());
            let ghost ps = pieces.deep_view();
            let mut symbols: Vec<String> = Vec::new();
            let n = pieces.len();
            let mut i: usize = 0;
            while i < n
                invariant
                    n == pieces@.len(),
                    ps == pieces.deep_view(),
                    i <= n,
                    symbols.deep_view() == ps.take(i as int).map_values(|p: Seq<char>| without_numerals(p)),
                decreases n - i,
            {
                let sym = remove_numerals(pieces[i].as_str());
                let ghost before = symbols.deep_view();
                let text = crate::text::string_of(sym.as_slice(), 0, sym.len());
                symbols.push(text);
                assert(sym@.subrange(0, sym@.len() as int) =~= sym@);
                assert(symbols.deep_view() =~= before.push(without_numerals(ps[i as int])));
                assert(ps.take(i + 1).map_values(|p: Seq<char>| without_numerals(p)) =~= ps.take(
                    i as int,
                ).map_values(|p: Seq<char>| without_numerals(p)).push(without_numerals(ps[i as int])));
                i += 1;
            }
            assert(ps.take(n as int) =~= ps);
            Some(CmuWord { word, arpabet_pronon: symbols })
        },
    }
}

/// Reads the words of the CMU dictionary from its text, with their ARPAbet
/// symbols without numerals: the lines after the header, each without its
/// line feed. `None` if a line has no two spaces.
/// A malformed input is no panic here: it is reported as `None`, for the
/// caller to stop on.
pub fn load_words(text: &str) -> (res: Option<Vec<CmuWord>>)
    ensures
        match res {
            Some(v) => cmu_word_entries(dictionary_lines(text@)) == Some(cmu_words_view(v@)),
            None => cmu_word_entries(dictionary_lines(text@)) is None,
        },
{
    let cs = chars_of(text);
    let lines = read_lines(cs.as_slice());
    let ghost ds = dictionary_lines(text@);
    let mut values: Vec<CmuWord> = Vec::new();
    let n = lines.len();
    if n <= CMU_HEADER_LINES {
        assert(ds =~= seq![]);
        assert(cmu_words_view(values@) =~= seq![]);
        return Some(values);
    }
    let mut j: usize = 0;
    while j < n - CMU_HEADER_LINES
        invariant
            n == lines@.len(),
            n > CMU_HEADER_LINES,
            lines.deep_view() == lines_spec(text@),
            ds == dictionary_lines(text@),
            ds.len() == n - CMU_HEADER_LINES,
            j <= n - CMU_HEADER_LINES,
            cmu_word_entries(ds.take(j as int)) == Some(cmu_words_view(values@)),
        decreases n - CMU_HEADER_LINES - j,
    {
        let line = strip_newline(lines[j + CMU_HEADER_LINES].clone());
        assert(line@ == ds[j as int]);
        assert(ds.take(j + 1).drop_last() =~= ds.take(j as int));
        match load_word(line.as_str()) {
            None => {
                proof {
                    lemma_word_entries_fail(ds, j as int);
                }
                return None;
            },
            Some(w) => {
                let ghost before = cmu_words_view(values@);
                values.push(w);
                assert(cmu_words_view(values@) =~= before.push(w@));
            },
        }
        j += 1;
    }
    assert(ds.take(ds.len() as int) =~= ds);
    Some(values)
}

/// The translations of dictionary words, or `None` if one has a symbol whose
/// number is not a single digit.
pub open spec fn translate_words(
    walk: Seq<(i32, Seq<Seq<char>>)>,
    ws: Seq<(Seq<char>, Seq<Seq<char>>)>,
) -> Option<Seq<(Seq<char>, Seq<char>, Seq<Seq<char>>)>>
    decreases ws.len(),
{
    if ws.len() == 0 {
        Some(seq![])
    } else {
        match (translate_words(walk, ws.drop_last()), cmu_number_of(walk, ws.last().1)) {
            (Some(r), Some(number)) => Some(r.push((number, ws.last().0, ws.last().1))),
            _ => None,
        }
    }
}

proof fn lemma_translate_words_fail(
    walk: Seq<(i32, Seq<Seq<char>>)>,
    ws: Seq<(Seq<char>, Seq<Seq<char>>)>,
    i: int,
)
    requires
        0 <= i < ws.len(),
        translate_words(walk, ws.take(i + 1)) is None,
    ensures
        translate_words(walk, ws) is None,
    decreases ws.len() - i,
{
    if i + 1 < ws.len() {
        assert(ws.take(i + 2).drop_last() =~= ws.take(i + 1));
        lemma_translate_words_fail(walk, ws, i + 1);
    } else {
        assert(ws.take(i + 1) =~= ws);
    }
}

/// Some symbol of some word is held by a number that is not a single digit.
pub open spec fn has_multi_digit_symbol(
    table: Map<i32, Seq<Seq<char>>>,
    ws: Seq<(Seq<char>, Seq<Seq<char>>)>,
) -> bool {
    exists|w: int, j: int, k: i32|
        0 <= w < ws.len() && 0 <= j < ws[w].1.len() && table.contains_key(k) && #[trigger] table[k].contains(
            #[trigger] ws[w].1[j],
        ) && !(0 <= k <= 9)
}

proof fn lemma_occurrences_positive(p: Seq<Seq<char>>, x: Seq<char>)
    ensures
        occurrences(p, x) > 0 <==> p.contains(x),
    decreases p.len(),
{
    if p.len() > 0 {
        lemma_occurrences_positive(p.drop_last(), x);
        if p.drop_last().contains(x) {
            let i = choose|i: int| 0 <= i < p.drop_last().len() && p.drop_last()[i] == x;
            assert(p[i] == x);
        }
        if p.contains(x) && p.last() != x {
            let i = choose|i: int| 0 <= i < p.len() && p[i] == x;
            assert(i != p.len() - 1);
            assert(p.drop_last()[i] == x);
        }
        assert(p[p.len() - 1] == p.last());
    }
}

/// A symbol has no digits exactly when some entry of the walk that holds it has
/// a number that is not a single digit.
proof fn lemma_all_digits_fail(walk: Seq<(i32, Seq<Seq<char>>)>, sym: Seq<char>)
    ensures
        all_digits_for(walk, sym) is None <==> exists|i: int|
            0 <= i < walk.len() && #[trigger] walk[i].1.contains(sym) && !(0 <= walk[i].0 <= 9),
    decreases walk.len(),
{
    if walk.len() > 0 {
        let d = walk.drop_last();
        lemma_all_digits_fail(d, sym);
        lemma_occurrences_positive(walk.last().1, sym);
        let last = walk.len() - 1;
        assert(walk[last] == walk.last());
        if exists|i: int| 0 <= i < d.len() && #[trigger] d[i].1.contains(sym) && !(0 <= d[i].0 <= 9) {
            let i = choose|i: int| 0 <= i < d.len() && #[trigger] d[i].1.contains(sym) && !(0 <= d[i].0 <= 9);
            assert(walk[i] == d[i]);
        }
        if exists|i: int| 0 <= i < walk.len() && #[trigger] walk[i].1.contains(sym) && !(0 <= walk[i].0 <= 9) {
            let i = choose|i: int| 0 <= i < walk.len() && #[trigger] walk[i].1.contains(sym) && !(0 <= walk[i].0 <= 9);
            if i < last {
                assert(d[i] == walk[i]);
            }
        }
    }
}

/// A pronunciation has no number exactly when one of its symbols has no digits.
proof fn lemma_cmu_number_none(walk: Seq<(i32, Seq<Seq<char>>)>, syms: Seq<Seq<char>>)
    ensures
        cmu_number_of(walk, syms) is None <==> exists|j: int|
            0 <= j < syms.len() && #[trigger] all_digits_for(walk, syms[j]) is None,
    decreases syms.len(),
{
    if syms.len() > 0 {
        let d = syms.drop_last();
        lemma_cmu_number_none(walk, d);
        let last = syms.len() - 1;
        assert(syms[last] == syms.last());
        if exists|j: int| 0 <= j < d.len() && #[trigger] all_digits_for(walk, d[j]) is None {
            let j = choose|j: int| 0 <= j < d.len() && #[trigger] all_digits_for(walk, d[j]) is None;
            assert(syms[j] == d[j]);
        }
        if exists|j: int| 0 <= j < syms.len() && #[trigger] all_digits_for(walk, syms[j]) is None {
            let j = choose|j: int| 0 <= j < syms.len() && #[trigger] all_digits_for(walk, syms[j]) is None;
            if j < last {
                assert(d[j] == syms[j]);
            }
        }
    }
}

/// Words fail to translate exactly when one of them has a pronunciation without a number.
proof fn lemma_translate_words_none(walk: Seq<(i32, Seq<Seq<char>>)>, ws: Seq<(Seq<char>, Seq<Seq<char>>)>)
    ensures
        translate_words(walk, ws) is None <==> exists|w: int|
            0 <= w < ws.len() && #[trigger] cmu_number_of(walk, ws[w].1) is None,
    decreases ws.len(),
{
    if ws.len() > 0 {
        let d = ws.drop_last();
        lemma_translate_words_none(walk, d);
        let last = ws.len() - 1;
        assert(ws[last] == ws.last());
        if exists|w: int| 0 <= w < d.len() && #[trigger] cmu_number_of(walk, d[w].1) is None {
            let w = choose|w: int| 0 <= w < d.len() && #[trigger] cmu_number_of(walk, d[w].1) is None;
            assert(ws[w] == d[w]);
        }
        if exists|w: int| 0 <= w < ws.len() && #[trigger] cmu_number_of(walk, ws[w].1) is None {
            let w = choose|w: int| 0 <= w < ws.len() && #[trigger] cmu_number_of(walk, ws[w].1) is None;
            if w < last {
                assert(d[w] == ws[w]);
            }
        }
    }
}

/// Whichever way the table is walked, words fail to translate exactly when
/// one of their symbols is held by a number that is not a single digit.
pub proof fn law_translation_fails_on_multi_digit(
    walk: Seq<(i32, Seq<Seq<char>>)>,
    table: Map<i32, Seq<Seq<char>>>,
    ws: Seq<(Seq<char>, Seq<Seq<char>>)>,
)
    requires
        walk_lists(walk, table),
    ensures
        translate_words(walk, ws) is None <==> has_multi_digit_symbol(table, ws),
{
    lemma_translate_words_none(walk, ws);
    if translate_words(walk, ws) is None {
        let w = choose|w: int| 0 <= w < ws.len() && #[trigger] cmu_number_of(walk, ws[w].1) is None;
        lemma_cmu_number_none(walk, ws[w].1);
        let j = choose|j: int| 0 <= j < ws[w].1.len() && #[trigger] all_digits_for(walk, ws[w].1[j]) is None;
        lemma_all_digits_fail(walk, ws[w].1[j]);
        let i = choose|i: int|
            0 <= i < walk.len() && #[trigger] walk[i].1.contains(ws[w].1[j]) && !(0 <= walk[i].0 <= 9);
        let k = walk[i].0;
        assert(table.contains_key(k) && table[k] == walk[i].1);
        assert(table[k].contains(ws[w].1[j]));
    }
    if has_multi_digit_symbol(table, ws) {
        let (w, j, k) = choose|w: int, j: int, k: i32|
            0 <= w < ws.len() && 0 <= j < ws[w].1.len() && table.contains_key(k) && #[trigger] table[k].contains(
                #[trigger] ws[w].1[j],
            ) && !(0 <= k <= 9);
        let i = choose|i: int| 0 <= i < walk.len() && #[trigger] walk[i].0 == k;
        assert(walk[i].1 == table[k]);
        lemma_all_digits_fail(walk, ws[w].1[j]);
        assert(walk[i].1.contains(ws[w].1[j]));
        lemma_cmu_number_none(walk, ws[w].1);
        assert(all_digits_for(walk, ws[w].1[j]) is None);
        assert(cmu_number_of(walk, ws[w].1) is None);
    }
}

/// The translations of `words` through `walk` are `out`.
pub open spec fn translates_to(
    walk: Seq<(i32, Seq<Seq<char>>)>,
    words: Seq<(Seq<char>, Seq<Seq<char>>)>,
    out: Seq<(Seq<char>, Seq<char>, Seq<Seq<char>>)>,
) -> bool {
    translate_words(walk, words) == Some(out)
}

/// Every dictionary word with the number that its sounds spell: the table is
/// read from `letter_num_text`, the words from `cmu_word_text`. `None` if the
/// table or the dictionary cannot be read, or if a symbol of a word is held by
/// a number that is not a single digit.
/// A malformed input is no panic here: it is reported as `None`, for the
/// caller to stop on.
pub fn get_word_number_pairs(letter_num_text: &str, cmu_word_text: &str) -> (res: Option<
    Vec<WordNumberPair>,
>)
    ensures
        sound_table_of(letter_num_text@, TableLayout::Leading) is None ==> res is None,
        cmu_word_entries(dictionary_lines(cmu_word_text@)) is None ==> res is None,
        ({
            let table = sound_table_of(letter_num_text@, TableLayout::Leading).unwrap();
            let words = cmu_word_entries(dictionary_lines(cmu_word_text@)).unwrap();
            sound_table_of(letter_num_text@, TableLayout::Leading) is Some && cmu_word_entries(
                dictionary_lines(cmu_word_text@),
            ) is Some ==> if res is Some {
                exists|walk: Seq<(i32, Seq<Seq<char>>)>|
                    #[trigger] walk_lists(walk, table) && translates_to(
                        walk,
                        words,
                        number_pairs_view(res.unwrap()@),
                    )
            } else {
                has_multi_digit_symbol(table, words)
            }
        }),
{
    let translator = match WordNumberTranslator::new(letter_num_text) {
        Some(t) => t,
        None => return None,
    };
    let raw_words = match load_words(cmu_word_text) {
        Some(w) => w,
        None => return None,
    };
    let ghost walk = translator.walk();
    let ghost words = cmu_words_view(raw_words@);
    let mut translated_words: Vec<WordNumberPair> = Vec::new();
    for word in it: raw_words.into_iter()
        invariant
            words == it.seq().map_values(|w: CmuWord| w@),
            walk == translator.walk(),
            walk_lists(walk, translator.table()),
            sound_table_of(letter_num_text@, TableLayout::Leading) == Some(translator.table()),
            cmu_word_entries(dictionary_lines(cmu_word_text@)) == Some(words),
            translate_words(walk, words.take(it.index())) == Some(number_pairs_view(translated_words@)),
    {
        let ghost i = it.index();
        assert(words.take(i + 1).drop_last() =~= words.take(i));
        assert(words.take(i + 1).last() == word@);
        match translator.translate_cmu_word(word) {
            None => {
                proof {
                    lemma_translate_words_fail(walk, words, i);
                    law_translation_fails_on_multi_digit(walk, translator.table(), words);
                }
                return None;
            },
            Some(p) => {
                let ghost before = number_pairs_view(translated_words@);
                translated_words.push(p);
                assert(number_pairs_view(translated_words@) =~= before.push(p@));
            },
        }
    }
    assert(words.take(words.len() as int) =~= words);
    let r = Some(translated_words);
    proof {
        let table = sound_table_of(letter_num_text@, TableLayout::Leading).unwrap();
        assert(number_pairs_view(r.unwrap()@) == number_pairs_view(translated_words@));
        assert(walk_lists(walk, table) && translates_to(walk, words, number_pairs_view(r.unwrap()@)));
    }
    r
}

/// Translating symbols succeeds exactly when the table holds each of them,
/// and gives each one's symbol in turn.
proof fn lemma_translate_all_pointwise(entries: Seq<(Seq<char>, Seq<char>)>, syms: Seq<Seq<char>>)
    ensures
        translate_all(entries, syms) is Some <==> forall|j: int|
            0 <= j < syms.len() ==> #[trigger] lookup(entries, syms[j]) is Some,
        translate_all(entries, syms) is Some ==> {
            let v = translate_all(entries, syms).unwrap();
            &&& v.len() == syms.len()
            &&& forall|j: int| 0 <= j < syms.len() ==> #[trigger] lookup(entries, syms[j]) == Some(v[j])
        },
    decreases syms.len(),
{
    if syms.len() > 0 {
        let d = syms.drop_last();
        let n = syms.len() - 1;
        lemma_translate_all_pointwise(entries, d);
        assert(syms.last() == syms[n]);
        assert forall|j: int| 0 <= j < d.len() implies #[trigger] d[j] == syms[j] by {}
        let r = translate_all(entries, d);
        let lv = lookup(entries, syms[n]);
        if r is Some && lv is Some {
            let v = r.unwrap().push(lv.unwrap());
            assert(translate_all(entries, syms) == Some(v));
            assert forall|j: int| 0 <= j < syms.len() implies #[trigger] lookup(entries, syms[j]) == Some(v[j]) by {
                if j < n {
                    assert(lookup(entries, d[j]) == Some(r.unwrap()[j]));
                }
            }
        } else {
            assert(translate_all(entries, syms) is None);
            if lv is Some {
                let j0 = choose|j: int| 0 <= j < d.len() && !(#[trigger] lookup(entries, d[j]) is Some);
                assert(lookup(entries, syms[j0]) is None);
            }
        }
    }
}

/// Through entries of a table with distinct numbers, a symbol that one
/// single-digit number alone holds gets that number's digit once for each
/// time the number holds it, if the entries include that number, and no
/// digit otherwise.
proof fn lemma_digits_of_single_holder(
    walk: Seq<(i32, Seq<Seq<char>>)>,
    table: Map<i32, Seq<Seq<char>>>,
    sym: Seq<char>,
    k: i32,
)
    requires
        forall|i: int|
            0 <= i < walk.len() ==> table.contains_key(#[trigger] walk[i].0) && table[walk[i].0]
                == walk[i].1,
        forall|i: int, j: int| 0 <= i < j < walk.len() ==> #[trigger] walk[i].0 != #[trigger] walk[j].0,
        table.contains_key(k),
        0 <= k <= 9,
        forall|k2: i32| #[trigger] table.contains_key(k2) && table[k2].contains(sym) ==> k2 == k,
    ensures
        all_digits_for(walk, sym) == Some(
            if exists|i: int| 0 <= i < walk.len() && #[trigger] walk[i].0 == k {
                Seq::new(occurrences(table[k], sym), |_i: int| digit_char(k as int))
            } else {
                Seq::<char>::empty()
            },
        ),
    decreases walk.len(),
{
    if walk.len() > 0 {
        let d = walk.drop_last();
        let n = walk.len() - 1;
        assert forall|i: int| 0 <= i < d.len() implies #[trigger] d[i] == walk[i] by {}
        assert forall|i: int| 0 <= i < d.len() implies table.contains_key(#[trigger] d[i].0) && table[d[i].0]
            == d[i].1 by {
            assert(d[i] == walk[i]);
        }
        assert forall|i: int, j: int| 0 <= i < j < d.len() implies #[trigger] d[i].0 != #[trigger] d[j].0 by {
            assert(d[i] == walk[i] && d[j] == walk[j]);
        }
        lemma_digits_of_single_holder(d, table, sym, k);
        assert(walk.last() == walk[n]);
        let (k1, syms1) = walk[n];
        assert(table.contains_key(k1) && table[k1] == syms1);
        lemma_occurrences_positive(syms1, sym);
        let in_d = exists|i: int| 0 <= i < d.len() && #[trigger] d[i].0 == k;
        if k1 == k {
            assert(!in_d) by {
                if in_d {
                    let i = choose|i: int| 0 <= i < d.len() && #[trigger] d[i].0 == k;
                    assert(walk[i].0 != walk[n].0);
                }
            }
            assert(walk[n].0 == k);
            let c = occurrences(table[k], sym);
            assert(Seq::<char>::empty() + Seq::new(c, |_i: int| digit_char(k as int)) =~= Seq::new(
                c,
                |_i: int| digit_char(k as int),
            ));
        } else {
            assert(!syms1.contains(sym));
            if in_d {
                let i = choose|i: int| 0 <= i < d.len() && #[trigger] d[i].0 == k;
                assert(walk[i].0 == k);
            }
            if exists|i: int| 0 <= i < walk.len() && #[trigger] walk[i].0 == k {
                let i = choose|i: int| 0 <= i < walk.len() && #[trigger] walk[i].0 == k;
                assert(i < n);
                assert(d[i].0 == k);
            }
        }
    }
}

/// A symbol that one single-digit number alone holds stands for that number's
/// digit, once for each time the number holds it.
pub proof fn law_single_digit_symbol(
    walk: Seq<(i32, Seq<Seq<char>>)>,
    table: Map<i32, Seq<Seq<char>>>,
    sym: Seq<char>,
    k: i32,
)
    requires
        walk_lists(walk, table),
        table.contains_key(k),
        table[k].contains(sym),
        0 <= k <= 9,
        forall|k2: i32| #[trigger] table.contains_key(k2) && table[k2].contains(sym) ==> k2 == k,
    ensures
        all_digits_for(walk, sym) is Some,
        all_digits_for(walk, sym).unwrap().len() == occurrences(table[k], sym),
        occurrences(table[k], sym) > 0,
        forall|i: int|
            0 <= i < all_digits_for(walk, sym).unwrap().len() ==> #[trigger] all_digits_for(walk, sym).unwrap()[i]
                as int - '0' as int == k,
{
    lemma_digits_of_single_holder(walk, table, sym, k);
    lemma_occurrences_positive(table[k], sym);
    let i = choose|i: int| 0 <= i < walk.len() && #[trigger] walk[i].0 == k;
    assert(walk[i].0 == k);
}

/// The two dictionary readers agree on every list of lines: the entries have
/// translations exactly when the words do and each of their symbols is in the
/// table, and then each entry is its word with the table's symbol for each
/// of the word's symbols.
proof fn lemma_readers_agree(lines: Seq<Seq<char>>, entries: Seq<(Seq<char>, Seq<char>)>)
    ensures
        cmu_entries(lines, entries) is Some <==> {
            &&& cmu_word_entries(lines) is Some
            &&& forall|i: int|
                0 <= i < cmu_word_entries(lines).unwrap().len() ==> #[trigger] translate_all(
                    entries,
                    cmu_word_entries(lines).unwrap()[i].1,
                ) is Some
        },
        cmu_entries(lines, entries) is Some ==> {
            let ds = cmu_entries(lines, entries).unwrap();
            let ws = cmu_word_entries(lines).unwrap();
            &&& ds.len() == ws.len()
            &&& forall|i: int|
                0 <= i < ds.len() ==> #[trigger] ds[i].0 == ws[i].0 && translate_all(entries, ws[i].1)
                    == Some(ds[i].1)
        },
    decreases lines.len(),
{
    if lines.len() > 0 {
        let d = lines.drop_last();
        let l = lines.last();
        lemma_readers_agree(d, entries);
        let wd = cmu_word_entries(d);
        let wl = cmu_word_entries(lines);
        if cmu_entry(l, entries) is Some {
            assert(cmu_word_entry(l) is Some);
            let (w, pron) = split_once_spec(l, seq![' ', ' ']).unwrap();
            assert(cmu_word_entry(l) == Some((w, cmu_symbols(pron))));
            assert(cmu_entry(l, entries) == Some((w, translate_all(entries, cmu_symbols(pron)).unwrap())));
        }
        if wl is Some {
            let ws = wl.unwrap();
            assert(ws == wd.unwrap().push(cmu_word_entry(l).unwrap()));
            assert forall|i: int| 0 <= i < wd.unwrap().len() implies #[trigger] wd.unwrap()[i] == ws[i] by {}
            if cmu_entries(lines, entries) is None {
                if forall|i: int| 0 <= i < ws.len() ==> #[trigger] translate_all(entries, ws[i].1) is Some {
                    assert(translate_all(entries, ws[ws.len() - 1].1) is Some);
                    assert forall|i: int| 0 <= i < wd.unwrap().len() implies #[trigger] translate_all(
                        entries,
                        wd.unwrap()[i].1,
                    ) is Some by {
                        assert(translate_all(entries, ws[i].1) is Some);
                    }
                    let (w, pron) = split_once_spec(l, seq![' ', ' ']).unwrap();
                    assert(cmu_word_entry(l) == Some((w, cmu_symbols(pron))));
                    assert(ws[ws.len() - 1] == (w, cmu_symbols(pron)));
                }
            }
        }
        if cmu_entries(lines, entries) is Some {
            let ds = cmu_entries(lines, entries).unwrap();
            let ws = wl.unwrap();
            let dd = cmu_entries(d, entries).unwrap();
            assert(ds == dd.push(cmu_entry(l, entries).unwrap()));
            assert(ws == wd.unwrap().push(cmu_word_entry(l).unwrap()));
            assert forall|i: int| 0 <= i < ds.len() implies #[trigger] ds[i].0 == ws[i].0 && translate_all(
                entries,
                ws[i].1,
            ) == Some(ds[i].1) by {
                if i < dd.len() {
                    assert(ds[i] == dd[i]);
                    assert(ws[i] == wd.unwrap()[i]);
                }
            }
        }
    }
}

/// The CMU dictionary reader that translates symbols and the one that keeps
/// the ARPAbet symbols read the same text alike: the first succeeds exactly
/// when the second does and the table holds every symbol it reads, and then
/// they read the same words, each symbol of the first being the table's
/// symbol for the same symbol of the second.
pub proof fn law_dictionary_readers_agree(text: Seq<char>, entries: Seq<(Seq<char>, Seq<char>)>)
    ensures
        ({
            let words = cmu_word_entries(dictionary_lines(text));
            cmu_dictionary(text, entries) is Some <==> {
                &&& words is Some
                &&& forall|i: int, j: int|
                    0 <= i < words.unwrap().len() && 0 <= j < words.unwrap()[i].1.len() ==> #[trigger] lookup(
                        entries,
                        words.unwrap()[i].1[j],
                    ) is Some
            }
        }),
        cmu_dictionary(text, entries) is Some ==> {
            let ds = cmu_dictionary(text, entries).unwrap();
            let ws = cmu_word_entries(dictionary_lines(text)).unwrap();
            &&& ds.len() == ws.len()
            &&& forall|i: int|
                0 <= i < ds.len() ==> {
                    &&& #[trigger] ds[i].0 == ws[i].0
                    &&& ds[i].1.len() == ws[i].1.len()
                    &&& forall|j: int|
                        0 <= j < ws[i].1.len() ==> #[trigger] lookup(entries, ws[i].1[j]) == Some(ds[i].1[j])
                }
        },
{
    let lines = dictionary_lines(text);
    lemma_readers_agree(lines, entries);
    let words = cmu_word_entries(lines);
    if words is Some {
        let ws = words.unwrap();
        assert forall|i: int| 0 <= i < ws.len() implies (#[trigger] translate_all(entries, ws[i].1) is Some
            <==> forall|j: int| 0 <= j < ws[i].1.len() ==> #[trigger] lookup(entries, ws[i].1[j]) is Some) by {
            lemma_translate_all_pointwise(entries, ws[i].1);
        }
        if forall|i: int| 0 <= i < ws.len() ==> #[trigger] translate_all(entries, ws[i].1) is Some {
            assert forall|i: int, j: int| 0 <= i < ws.len() && 0 <= j < ws[i].1.len() implies #[trigger] lookup(
                entries,
                ws[i].1[j],
            ) is Some by {
                assert(translate_all(entries, ws[i].1) is Some);
            }
        }
        if forall|i: int, j: int|
            0 <= i < ws.len() && 0 <= j < ws[i].1.len() ==> #[trigger] lookup(entries, ws[i].1[j]) is Some {
            assert forall|i: int| 0 <= i < ws.len() implies #[trigger] translate_all(entries, ws[i].1) is Some by {
                assert forall|j: int| 0 <= j < ws[i].1.len() implies #[trigger] lookup(entries, ws[i].1[j]) is Some by {}
            }
        }
    }
    if cmu_dictionary(text, entries) is Some {
        let ds = cmu_dictionary(text, entries).unwrap();
        let ws = words.unwrap();
        assert forall|i: int| 0 <= i < ds.len() implies {
            &&& #[trigger] ds[i].0 == ws[i].0
            &&& ds[i].1.len() == ws[i].1.len()
            &&& forall|j: int|
                0 <= j < ws[i].1.len() ==> #[trigger] lookup(entries, ws[i].1[j]) == Some(ds[i].1[j])
        } by {
            lemma_translate_all_pointwise(entries, ws[i].1);
        }
    }
}

} // verus!
