//! Translating words into numbers through the sounds of their pronunciation:
//! every sound symbol that the digit–sound table knows stands for its number.
use std::collections::HashMap;
use vstd::prelude::*;
use crate::sound_table::{
    check_walk, first_number, first_number_with, lemma_first_number_in_table, number_of, read_sound_table, sound_digits,
    sound_table_of, sound_walk, table_view, walk_lists, TableLayout,
};
use crate::util::without_newline;
use crate::text::chars_of;

verus! {

/// A word and its pronunciation as a sequence of IPA symbols.
pub struct WordIpaPair {
    pub word: String,
    pub ipa_symbols: Vec<String>,
}

/// A word, its pronunciation, and the number that the pronunciation spells.
pub struct WordNumberPair {
    pub number: String,
    pub word: String,
    pub ipa_symbols: Vec<String>,
}

impl View for WordIpaPair {
    /// The word and its symbols.
    type V = (Seq<char>, Seq<Seq<char>>);

    open spec fn view(&self) -> Self::V {
        (self.word@, self.ipa_symbols.deep_view())
    }
}

impl View for WordNumberPair {
    /// The number, the word and its symbols.
    type V = (Seq<char>, Seq<char>, Seq<Seq<char>>);

    open spec fn view(&self) -> Self::V {
        (self.number@, self.word@, self.ipa_symbols.deep_view())
    }
}

/// The translation of a word: the digits of its symbols, the word, the symbols.
pub open spec fn translation(
    walk: Seq<(i32, Seq<Seq<char>>)>,
    w: (Seq<char>, Seq<Seq<char>>),
) -> (Seq<char>, Seq<char>, Seq<Seq<char>>) {
    (number_of(walk, w.1), w.0, w.1)
}

/// The views of a sequence of translated words.
pub open spec fn pairs_view(ws: Seq<WordNumberPair>) -> Seq<(Seq<char>, Seq<char>, Seq<Seq<char>>)> {
    ws.map_values(|w: WordNumberPair| w@)
}

/// Each word's number is the one that its symbols spell through `walk`.
pub open spec fn numbers_match(
    walk: Seq<(i32, Seq<Seq<char>>)>,
    ws: Seq<(Seq<char>, Seq<char>, Seq<Seq<char>>)>,
) -> bool {
    forall|i: int| 0 <= i < ws.len() ==> #[trigger] ws[i] == translation(walk, (ws[i].1, ws[i].2))
}

/// The indices `i < n` of the words whose number is `target`, in increasing order.
pub open spec fn indices_with_number(
    ws: Seq<(Seq<char>, Seq<char>, Seq<Seq<char>>)>,
    target: Seq<char>,
    n: int,
) -> Seq<usize>
    decreases n,
{
    if n <= 0 {
        seq![]
    } else if ws[n - 1].0 == target {
        indices_with_number(ws, target, n - 1).push((n - 1) as usize)
    } else {
        indices_with_number(ws, target, n - 1)
    }
}

/// How often a sound symbol occurs in the translated words, and its number.
pub struct SymbolFrequency {
    pub symbol: String,
    pub count: i32,
    /// The first number in the table walk whose symbols hold the symbol, or -1.
    pub number: i32,
}

/// All the symbols of the translated words, word after word.
pub open spec fn all_symbols(ws: Seq<(Seq<char>, Seq<char>, Seq<Seq<char>>)>) -> Seq<Seq<char>> {
    ws.map_values(|w: (Seq<char>, Seq<char>, Seq<Seq<char>>)| w.2).flatten()
}

/// How many times `x` occurs in `p`.
pub open spec fn occurrences(p: Seq<Seq<char>>, x: Seq<char>) -> nat
    decreases p.len(),
{
    if p.len() == 0 {
        0
    } else {
        occurrences(p.drop_last(), x) + if p.last() == x {
            1nat
        } else {
            0nat
        }
    }
}

/// The number that the table gives a symbol, or -1 where no number holds it.
pub open spec fn number_or_missing(walk: Seq<(i32, Seq<Seq<char>>)>, sym: Seq<char>) -> i32 {
    match first_number_with(walk, sym) {
        Some(k) => k,
        None => -1i32,
    }
}

proof fn lemma_occurrences_bounds(p: Seq<Seq<char>>, x: Seq<char>)
    ensures
        occurrences(p, x) <= p.len(),
        !p.contains(x) ==> occurrences(p, x) == 0,
    decreases p.len(),
{
    if p.len() > 0 {
        lemma_occurrences_bounds(p.drop_last(), x);
        if !p.contains(x) {
            assert(!p.drop_last().contains(x)) by {
                if p.drop_last().contains(x) {
                    let i = choose|i: int| 0 <= i < p.drop_last().len() && p.drop_last()[i] == x;
                    assert(p[i] == x);
                }
            }
            assert(p.last() == p[p.len() - 1]);
        }
    }
}

proof fn lemma_all_symbols_is_prefix(ws: Seq<(Seq<char>, Seq<char>, Seq<Seq<char>>)>, a: int)
    requires
        0 <= a <= ws.len(),
    ensures
        all_symbols(ws.take(a)).len() <= all_symbols(ws).len(),
        all_symbols(ws.take(a)) == all_symbols(ws).take(all_symbols(ws.take(a)).len() as int),
    decreases ws.len() - a,
{
    if a == ws.len() {
        assert(ws.take(a) =~= ws);
        assert(all_symbols(ws) =~= all_symbols(ws).take(all_symbols(ws).len() as int));
    } else {
        lemma_all_symbols_step(ws, a);
        lemma_all_symbols_is_prefix(ws, a + 1);
        let x = all_symbols(ws.take(a));
        let y = all_symbols(ws.take(a + 1));
        assert(x =~= all_symbols(ws).take(x.len() as int)) by {
            assert forall|i: int| 0 <= i < x.len() implies x[i] == all_symbols(ws).take(x.len() as int)[i] by {
                assert(y[i] == x[i]);
            }
        }
    }
}

/// Occurrences in a prefix are at most those in the whole.
proof fn lemma_occurrences_prefix(p: Seq<Seq<char>>, k: int, x: Seq<char>)
    requires
        0 <= k <= p.len(),
    ensures
        occurrences(p.take(k), x) <= occurrences(p, x),
    decreases p.len(),
{
    if k == p.len() {
        assert(p.take(k) =~= p);
    } else {
        assert(p.drop_last().take(k) =~= p.take(k));
        lemma_occurrences_prefix(p.drop_last(), k, x);
    }
}

proof fn lemma_all_symbols_step(ws: Seq<(Seq<char>, Seq<char>, Seq<Seq<char>>)>, w: int)
    requires
        0 <= w < ws.len(),
    ensures
        all_symbols(ws.take(w + 1)) == all_symbols(ws.take(w)) + ws[w].2,
{
    let f = |x: (Seq<char>, Seq<char>, Seq<Seq<char>>)| x.2;
    assert(ws.take(w + 1).map_values(f) =~= ws.take(w).map_values(f).push(ws[w].2));
    ws.take(w).map_values(f).lemma_flatten_push(ws[w].2);
}

/// A table of digits and sounds, and the words translated through it so far.
pub struct WordNumberTranslator {
    number_sound_map: HashMap<i32, Vec<String>>,
    translated_words: Vec<WordNumberPair>,
}

impl WordNumberTranslator {
    /// The digit–sound table: each number with its sound symbols.
    pub closed spec fn table(&self) -> Map<i32, Seq<Seq<char>>> {
        table_view(self.number_sound_map@)
    }

    /// The entries of the table in the order in which it is walked.
    pub closed spec fn walk(&self) -> Seq<(i32, Seq<Seq<char>>)> {
        sound_walk(&self.number_sound_map)
    }

    /// The words translated so far, in the order they were added.
    pub closed spec fn words(&self) -> Seq<(Seq<char>, Seq<char>, Seq<Seq<char>>)> {
        pairs_view(self.translated_words@)
    }

    /// A translator whose table is read from the text of a table file, in
    /// which each line is `number=symbol,symbol,...` (split at `=` and `,`
    /// graphemes); `None` if a line has no `=` or no valid number before it.
    /// A malformed input is no panic here: it is reported as `None`, for the
    /// caller to stop on.
    pub fn new(letter_number_text: &str) -> (res: Option<WordNumberTranslator>)
        ensures
            match res {
                Some(t) => {
                    &&& sound_table_of(letter_number_text@, TableLayout::Separated) == Some(t.table())
                    &&& t.words().len() == 0
                    &&& numbers_match(t.walk(), t.words())
                    &&& walk_lists(t.walk(), t.table())
                },
                None => sound_table_of(letter_number_text@, TableLayout::Separated) is None,
            },
    {
        match get_letter_number_pair(letter_number_text) {
            None => None,
            Some(map) => {
                check_walk(&map);
                let t = WordNumberTranslator { number_sound_map: map, translated_words: Vec::new() };
                assert(t.words() =~= seq![]);
                Some(t)
            },
        }
    }

    /// The word with the number that its symbols spell: for each symbol, the
    /// digits of the first number in the table walk whose symbols hold it.
    pub fn translate_word(&self, word: WordIpaPair) -> (res: WordNumberPair)
        ensures
            res@ == translation(self.walk(), word@),
    {
        let ghost walk = self.walk();
        let ghost syms = word.ipa_symbols.deep_view();
        let mut pronon_num = String::new();
        let n = word.ipa_symbols.len();
        let mut i: usize = 0;
        while i < n
            invariant
                n == word.ipa_symbols@.len(),
                syms == word.ipa_symbols.deep_view(),
                walk == sound_walk(&self.number_sound_map),
                i <= n,
                pronon_num@ == number_of(walk, syms.take(i as int)),
            decreases n - i,
        {
            let digits = sound_digits(&self.number_sound_map, &word.ipa_symbols[i]);
            pronon_num.append(digits.as_str());
            assert(syms.take(i + 1).drop_last() =~= syms.take(i as int));
            i += 1;
        }
        assert(syms.take(n as int) =~= syms);
        WordNumberPair { word: word.word, number: pronon_num, ipa_symbols: word.ipa_symbols }
    }

    /// Translates `words` and adds them, in order, after the words already translated.
    pub fn add_new_words(&mut self, words: Vec<WordIpaPair>)
        ensures
            final(self).table() == old(self).table(),
            final(self).walk() == old(self).walk(),
            final(self).words() == old(self).words() + words@.map_values(
                |w: WordIpaPair| translation(old(self).walk(), w@),
            ),
            numbers_match(old(self).walk(), old(self).words()) ==> numbers_match(
                final(self).walk(),
                final(self).words(),
            ),
    {
        let ghost walk = old(self).walk();
        let ghost before = old(self).words();
        let ghost ws = words@;
        for pair in it: words.into_iter()
            invariant
                self.table() == old(self).table(),
                self.walk() == walk,
                self.number_sound_map == old(self).number_sound_map,
                ws == it.seq(),
                self.words() == before + ws.take(it.index()).map_values(
                    |w: WordIpaPair| translation(walk, w@),
                ),
        {
            let ghost i = it.index();
            let word_num_dat = self.translate_word(pair);
            let ghost prev = self.words();
            self.translated_words.push(word_num_dat);
            assert(self.words() =~= prev.push(word_num_dat@));
            assert(ws.take(i + 1).map_values(|w: WordIpaPair| translation(walk, w@)) =~= ws.take(
                i,
            ).map_values(|w: WordIpaPair| translation(walk, w@)).push(translation(walk, ws[i]@)));
        }
        assert(ws.take(ws.len() as int) =~= ws);
        proof {
            let vs = ws.map_values(|w: WordIpaPair| w@);
            assert(ws.map_values(|w: WordIpaPair| translation(walk, w@)) =~= vs.map_values(
                |w: (Seq<char>, Seq<Seq<char>>)| translation(walk, w),
            ));
            if numbers_match(walk, before) {
                law_numbers_stay_matched(walk, before, vs);
            }
        }
    }

    /// The distinct symbols of the translated words, in the order in which
    /// they first occur, with how often each occurs; `None` where some
    /// symbol occurs more often than an `i32` can count.
    fn count_symbols(&self) -> (res: Option<(Vec<String>, Vec<i32>)>)
        ensures
            ({
                let all = all_symbols(self.words());
                match res {
                    Some((syms, counts)) => {
                        &&& syms@.len() == counts@.len()
                        &&& forall|i: int, j: int|
                            0 <= i < j < syms@.len() ==> #[trigger] syms@[i]@ != #[trigger] syms@[j]@
                        &&& forall|x: Seq<char>| all.contains(x) <==> syms.deep_view().contains(x)
                        &&& forall|i: int|
                            0 <= i < syms@.len() ==> #[trigger] counts@[i] == occurrences(all, syms@[i]@)
                    },
                    None => exists|x: Seq<char>| #[trigger] occurrences(all, x) > i32::MAX,
                }
            }),
    {
        let ghost ws = self.words();
        let ghost all = all_symbols(ws);
        // Count the symbols, in the order in which they first occur.
        let mut syms: Vec<String> = Vec::new();
        let mut counts: Vec<i32> = Vec::new();
        let ghost mut done: Seq<Seq<char>> = seq![];
        let nw = self.translated_words.len();
        let mut w: usize = 0;
        while w < nw
            invariant
                nw == self.translated_words@.len(),
                ws == self.words(),
                all == all_symbols(ws),
                w <= nw,
                done == all_symbols(ws.take(w as int)),
                syms@.len() == counts@.len(),
                forall|i: int, j: int| 0 <= i < j < syms@.len() ==> #[trigger] syms@[i]@ != #[trigger] syms@[j]@,
                forall|x: Seq<char>| done.contains(x) <==> syms.deep_view().contains(x),
                forall|i: int| 0 <= i < syms@.len() ==> #[trigger] counts@[i] == occurrences(done, syms@[i]@),
            decreases nw - w,
        {
            proof {
                lemma_all_symbols_step(ws, w as int);
                lemma_all_symbols_is_prefix(ws, w + 1);
            }
            let symbols = &self.translated_words[w].ipa_symbols;
            let ghost sy = symbols.deep_view();
            assert(sy == ws[w as int].2);
            let ghost base = done;
            let ns = symbols.len();
            let mut s: usize = 0;
            while s < ns
                invariant
                    ns == symbols@.len(),
                    sy == symbols.deep_view(),
                    ws == self.words(),
                    all == all_symbols(ws),
                    base.len() + sy.len() <= all.len(),
                    base + sy == all.take((base.len() + sy.len()) as int),
                    s <= ns,
                    done == base + sy.take(s as int),
                    syms@.len() == counts@.len(),
                    forall|i: int, j: int| 0 <= i < j < syms@.len() ==> #[trigger] syms@[i]@ != #[trigger] syms@[j]@,
                    forall|x: Seq<char>| done.contains(x) <==> syms.deep_view().contains(x),
                    forall|i: int| 0 <= i < syms@.len() ==> #[trigger] counts@[i] == occurrences(done, syms@[i]@),
                decreases ns - s,
            {
                let x = &symbols[s];
                assert(sy[s as int] == x@);
                let ghost done0 = done;
                proof {
                    done = done0.push(x@);
                    assert(sy.take(s + 1) =~= sy.take(s as int).push(x@));
                    assert(done =~= base + sy.take(s + 1));
                }
                let mut j: usize = 0;
                let mut found = false;
                while j < syms.len() && !found
                    invariant
                        j <= syms@.len(),
                        found ==> j < syms@.len() && syms@[j as int]@ == x@,
                        !found ==> forall|i: int| 0 <= i < j ==> syms@[i]@ != x@,
                    decreases syms@.len() - j + if found { 0int } else { 1int },
                {
                    if syms[j] == *x {
                        found = true;
                    } else {
                        j += 1;
                    }
                }
                let ghost syms0 = syms.deep_view();
                assert(forall|y: Seq<char>| #[trigger] done0.contains(y) <==> syms0.contains(y));
                proof {
                    lemma_occurrences_bounds(done0, x@);
                    assert(done.drop_last() =~= done0);
                    assert(done.last() == x@);
                    assert(done =~= all.take(done.len() as int)) by {
                        assert forall|i: int| 0 <= i < done.len() implies done[i] == all.take(
                            done.len() as int,
                        )[i] by {
                            assert(done[i] == (base + sy)[i]);
                        }
                    }
                    lemma_occurrences_prefix(all, done.len() as int, x@);
                }
                if found {
                    let c = counts[j];
                    if c == 2147483647 {
                        assert(occurrences(all, x@) > i32::MAX);
                        return None;
                    }
                    counts.set(j, c + 1);
                    assert forall|i: int| 0 <= i < syms@.len() implies #[trigger] counts@[i]
                        == occurrences(done, syms@[i]@) by {
                        if i != j {
                            if i < j {
                                assert(syms@[i]@ != syms@[j as int]@);
                            } else {
                                assert(syms@[j as int]@ != syms@[i]@);
                            }
                        }
                    }
                    assert(syms.deep_view()[j as int] == x@);
                } else {
                    assert(!syms.deep_view().contains(x@)) by {
                        if syms.deep_view().contains(x@) {
                            let i = choose|i: int| 0 <= i < syms.deep_view().len() && syms.deep_view()[i] == x@;
                            assert(syms@[i]@ == x@);
                        }
                    }
                    assert(!done0.contains(x@));
                    syms.push(x.clone());
                    counts.push(1);
                    assert(syms.deep_view() =~= syms0.push(x@));
                    assert forall|i: int, j2: int| 0 <= i < j2 < syms@.len() implies #[trigger] syms@[i]@
                        != #[trigger] syms@[j2]@ by {
                        if j2 == syms@.len() - 1 {
                            assert(syms0[i] == syms@[i]@);
                            assert(syms0.contains(syms@[i]@));
                        }
                    }
                    assert forall|i: int| 0 <= i < syms@.len() implies #[trigger] counts@[i]
                        == occurrences(done, syms@[i]@) by {
                        if i < syms@.len() - 1 {
                            assert(syms0[i] == syms@[i]@);
                            assert(syms0.contains(syms@[i]@));
                            assert(syms@[i]@ != x@);
                        }
                    }
                }
                assert forall|y: Seq<char>| done.contains(y) <==> syms.deep_view().contains(y) by {
                    if done.contains(y) {
                        let i = choose|i: int| 0 <= i < done.len() && done[i] == y;
                        if i < done0.len() {
                            assert(done0[i] == y);
                            assert(done0.contains(y));
                            assert(syms0.contains(y));
                            let a = choose|a: int| 0 <= a < syms0.len() && syms0[a] == y;
                            assert(syms.deep_view()[a] == y);
                        } else {
                            assert(y == x@);
                            if found {
                                assert(syms.deep_view()[j as int] == y);
                            } else {
                                assert(syms.deep_view()[syms0.len() as int] == y);
                            }
                        }
                    }
                    if syms.deep_view().contains(y) {
                        let a = choose|a: int| 0 <= a < syms.deep_view().len() && syms.deep_view()[a] == y;
                        if a < syms0.len() {
                            assert(syms0[a] == y);
                            assert(syms0.contains(y));
                            assert(done0.contains(y));
                            let i = choose|i: int| 0 <= i < done0.len() && done0[i] == y;
                            assert(done[i] == y);
                        } else {
                            assert(y == x@);
                            assert(done[done.len() - 1] == y);
                        }
                    }
                }
                s += 1;
            }
            assert(sy.take(ns as int) =~= sy);
            w += 1;
        }
        assert(ws.take(nw as int) =~= ws);
        assert(ws.take(nw as int) =~= ws);
        Some((syms, counts))
    }

    /// Every distinct symbol of the translated words with the number of
    /// times it occurs and the number the table gives it, the most frequent
    /// first (symbols that occur equally often come in no promised order).
    pub fn get_ipa_symbol_frequencies(&self) -> (res: Vec<SymbolFrequency>)
        requires
            forall|x: Seq<char>| #[trigger] occurrences(all_symbols(self.words()), x) <= i32::MAX,
        ensures
            ({
                let all = all_symbols(self.words());
                let r = res@;
                &&& forall|i: int, j: int|
                    0 <= i < j < r.len() ==> #[trigger] r[i].symbol@ != #[trigger] r[j].symbol@
                &&& forall|x: Seq<char>|
                    all.contains(x) <==> exists|i: int| 0 <= i < r.len() && #[trigger] r[i].symbol@ == x
                &&& forall|i: int|
                    0 <= i < r.len() ==> #[trigger] r[i].count == occurrences(all, r[i].symbol@)
                &&& forall|i: int|
                    0 <= i < r.len() ==> #[trigger] r[i].number == number_or_missing(
                        self.walk(),
                        r[i].symbol@,
                    )
                &&& forall|i: int, j: int|
                    0 <= i < j < r.len() ==> #[trigger] r[i].count >= #[trigger] r[j].count
            }),
    {
        let ghost all = all_symbols(self.words());
        let (syms, counts) = match self.count_symbols() {
            Some(p) => p,
            None => {
                proof {
                    let x = choose|x: Seq<char>| #[trigger] occurrences(all, x) > i32::MAX;
                    assert(occurrences(all, x) <= i32::MAX);
                }
                return Vec::new();
            },
        };
        let ghost syv = syms.deep_view();
        // Order the symbols by decreasing count.
        let k = syms.len();
        let mut order: Vec<usize> = Vec::new();
        let mut i: usize = 0;
        while i < k
            invariant
                k == syms@.len(),
                k == counts@.len(),
                i <= k,
                order@.len() == i,
                forall|x: usize| order@.contains(x) <==> x < i,
                forall|a: int| 0 <= a < order@.len() ==> order@[a] < i,
                order@.no_duplicates(),
                forall|a: int, b: int|
                    0 <= a < b < order@.len() ==> counts@[order@[a] as int] >= counts@[order@[b] as int],
            decreases k - i,
        {
            let ci = counts[i];
            let mut p: usize = 0;
            while p < order.len() && counts[order[p]] >= ci
                invariant
                    p <= order@.len(),
                    k == counts@.len(),
                    forall|a: int| 0 <= a < order@.len() ==> order@[a] < k,
                    forall|a: int| 0 <= a < p ==> counts@[order@[a] as int] >= ci,
                decreases order@.len() - p,
            {
                p += 1;
            }
            let ghost o0 = order@;
            order.insert(p, i);
            assert(order@ =~= o0.insert(p as int, i));
            assert forall|x: usize| order@.contains(x) <==> x < i + 1 by {
                if order@.contains(x) {
                    let a = choose|a: int| 0 <= a < order@.len() && order@[a] == x;
                    if a < p {
                        assert(o0[a] == x);
                        assert(o0.contains(x));
                    } else if a > p {
                        assert(o0[a - 1] == x);
                        assert(o0.contains(x));
                    }
                }
                if x < i {
                    assert(o0.contains(x));
                    let a = choose|a: int| 0 <= a < o0.len() && o0[a] == x;
                    if a < p {
                        assert(order@[a] == x);
                    } else {
                        assert(order@[a + 1] == x);
                    }
                }
                if x == i {
                    assert(order@[p as int] == x);
                }
            }
            assert forall|a: int| 0 <= a < order@.len() implies order@[a] < i + 1 by {
                if a < p {
                    assert(order@[a] == o0[a]);
                } else if a > p {
                    assert(order@[a] == o0[a - 1]);
                }
            }
            assert forall|a: int, b: int| 0 <= a < b < order@.len() implies order@[a] != order@[b] by {
                if order@[a] == order@[b] {
                    if a < p && b < p {
                    } else if a < p && b == p {
                        assert(o0.contains(order@[a]));
                    } else if a < p && b > p {
                        assert(o0[a] == o0[b - 1]);
                    } else if a == p {
                        assert(o0.contains(order@[b]));
                    } else {
                        assert(o0[a - 1] == o0[b - 1]);
                    }
                }
            }
            assert forall|a: int, b: int|
                0 <= a < b < order@.len() implies counts@[order@[a] as int] >= counts@[order@[b] as int] by {
                if p < o0.len() {
                    assert(counts@[o0[p as int] as int] < ci);
                }
                if a < p && b == p {
                } else if a == p && b > p {
                    assert(counts@[o0[p as int] as int] >= counts@[o0[b - 1] as int] || b - 1 == p);
                } else if a < p && b > p {
                } else if a > p {
                    assert(o0[a - 1] == order@[a]);
                    assert(o0[b - 1] == order@[b]);
                }
            }
            i += 1;
        }
        // Give each symbol its number.
        let ghost walk = sound_walk(&self.number_sound_map);
        let mut res: Vec<SymbolFrequency> = Vec::new();
        let mut j: usize = 0;
        while j < k
            invariant
                k == syms@.len(),
                k == counts@.len(),
                k == order@.len(),
                walk == sound_walk(&self.number_sound_map),
                j <= k,
                res@.len() == j,
                forall|x: usize| order@.contains(x) <==> x < k,
                forall|a: int| 0 <= a < j ==> (#[trigger] res@[a]).symbol@ == syms@[order@[a] as int]@
                    && res@[a].count == counts@[order@[a] as int]
                    && res@[a].number == number_or_missing(walk, res@[a].symbol@),
            decreases k - j,
        {
            let idx = order[j];
            assert(order@.contains(idx));
            let sym = syms[idx].clone();
            let number = match first_number(&self.number_sound_map, &sym) {
                Some(n) => n,
                None => -1,
            };
            res.push(SymbolFrequency { symbol: sym, count: counts[idx], number });
            j += 1;
        }
        proof {
            let r = res@;
            assert forall|a: int, b: int| 0 <= a < b < r.len() implies #[trigger] r[a].symbol@
                != #[trigger] r[b].symbol@ by {
                assert(order@.contains(order@[a]) && order@.contains(order@[b]));
                assert(order@[a] != order@[b]);
                if (order@[a] as int) < (order@[b] as int) {
                    assert(syms@[order@[a] as int]@ != syms@[order@[b] as int]@);
                } else {
                    assert(syms@[order@[b] as int]@ != syms@[order@[a] as int]@);
                }
            }
            assert forall|x: Seq<char>| all.contains(x) implies exists|a: int|
                0 <= a < r.len() && #[trigger] r[a].symbol@ == x by {
                assert(syms.deep_view().contains(x));
                let i = choose|i: int| 0 <= i < syms.deep_view().len() && syms.deep_view()[i] == x;
                assert(order@.contains(i as usize));
                let a = choose|a: int| 0 <= a < order@.len() && order@[a] == i as usize;
                assert(r[a].symbol@ == x);
            }
            assert forall|x: Seq<char>| (exists|a: int| 0 <= a < r.len() && #[trigger] r[a].symbol@ == x)
                implies all.contains(x) by {
                let a = choose|a: int| 0 <= a < r.len() && r[a].symbol@ == x;
                assert(order@.contains(order@[a]));
                assert(syms.deep_view()[order@[a] as int] == x);
                assert(syms.deep_view().contains(x));
            }
            assert forall|a: int| 0 <= a < r.len() implies #[trigger] r[a].count == occurrences(
                all,
                r[a].symbol@,
            ) by {
                assert(order@.contains(order@[a]));
            }
            assert forall|a: int, b: int| 0 <= a < b < r.len() implies #[trigger] r[a].count
                >= #[trigger] r[b].count by {
            }
        }
        res
    }

    /// Whether every symbol of the translated words occurs few enough times
    /// to be counted in an `i32`.
    pub fn symbol_count_fits(&self) -> (res: bool)
        ensures
            res == (forall|x: Seq<char>| #[trigger] occurrences(all_symbols(self.words()), x) <= i32::MAX),
    {
        match self.count_symbols() {
            None => false,
            Some((syms, counts)) => {
                proof {
                    let all = all_symbols(self.words());
                    assert forall|x: Seq<char>| #[trigger] occurrences(all, x) <= i32::MAX by {
                        if all.contains(x) {
                            let i = choose|i: int| 0 <= i < syms.deep_view().len() && syms.deep_view()[i] == x;
                            assert(counts@[i] == occurrences(all, syms@[i]@));
                        } else {
                            lemma_occurrences_bounds(all, x);
                        }
                    }
                }
                true
            },
        }
    }

    /// The words translated so far, in the order they were added.
    pub fn translated_words(&self) -> (res: &Vec<WordNumberPair>)
        ensures
            pairs_view(res@) == self.words(),
    {
        &self.translated_words
    }

    /// The indices of the translated words whose number is the line `input`
    /// without its final `'\n'`; `None` if `input` does not end with `'\n'`.
    pub fn words_for_input(&self, input: &str) -> (res: Option<Vec<usize>>)
        ensures
            match res {
                Some(v) => {
                    let s = input@;
                    &&& s.len() > 0 && s.last() == '\n'
                    &&& v@ == indices_with_number(self.words(), without_newline(s), self.words().len() as int)
                },
                None => !(input@.len() > 0 && input@.last() == '\n'),
            },
    {
        let cs = chars_of(input);
        let n = cs.len();
        if n == 0 || cs[n - 1] != '\n' {
            return None;
        }
        let target = crate::text::string_of(cs.as_slice(), 0, n - 1);
        assert(target@ == without_newline(input@));
        let ghost ws = self.words();
        let mut res: Vec<usize> = Vec::new();
        let m = self.translated_words.len();
        let mut i: usize = 0;
        while i < m
            invariant
                m == self.translated_words@.len(),
                ws == self.words(),
                i <= m,
                res@ == indices_with_number(ws, target@, i as int),
            decreases m - i,
        {
            assert(ws[i as int].0 == self.translated_words@[i as int].number@);
            if self.translated_words[i].number == target {
                res.push(i);
            }
            i += 1;
        }
        Some(res)
    }
}

/// Reads the digit–sound table from the text of its file: each line is
/// `number=symbol,symbol,...` (split at `=` and `,` graphemes) and ends with
/// `'\n'`. `None` if a line has no `=` or no valid number before it.
/// A malformed input is no panic here: it is reported as `None`, for the
/// caller to stop on.
pub fn get_letter_number_pair(text: &str) -> (res: Option<HashMap<i32, Vec<String>>>)
    ensures
        match res {
            Some(m) => sound_table_of(text@, TableLayout::Separated) == Some(table_view(m@)),
            None => sound_table_of(text@, TableLayout::Separated) is None,
        },
{
    read_sound_table(text, TableLayout::Separated)
}

/// The indices found for a number are exactly those of the words with that
/// number, in increasing order.
pub proof fn law_lookup_finds_exactly_matching(
    ws: Seq<(Seq<char>, Seq<char>, Seq<Seq<char>>)>,
    target: Seq<char>,
    n: int,
)
    requires
        0 <= n <= ws.len(),
        n <= usize::MAX,
    ensures
        ({
            let r = indices_with_number(ws, target, n);
            &&& forall|a: int| 0 <= a < r.len() ==> 0 <= #[trigger] r[a] < n && ws[r[a] as int].0 == target
            &&& forall|i: int| 0 <= i < n && ws[i].0 == target ==> r.contains(i as usize)
            &&& forall|a: int, b: int| 0 <= a < b < r.len() ==> #[trigger] r[a] < #[trigger] r[b]
        }),
    decreases n,
{
    if n > 0 {
        law_lookup_finds_exactly_matching(ws, target, n - 1);
        let r0 = indices_with_number(ws, target, n - 1);
        let r = indices_with_number(ws, target, n);
        if ws[n - 1].0 == target {
            assert(r == r0.push((n - 1) as usize));
            assert forall|a: int| 0 <= a < r.len() implies 0 <= #[trigger] r[a] < n && ws[r[a] as int].0 == target by {
                if a < r0.len() {
                    assert(r[a] == r0[a]);
                }
            }
            assert forall|a: int, b: int| 0 <= a < b < r.len() implies #[trigger] r[a] < #[trigger] r[b] by {
                assert(r[a] == r0[a]);
                if b < r0.len() {
                    assert(r[b] == r0[b]);
                }
            }
        } else {
            assert(r == r0);
        }
        assert forall|i: int| 0 <= i < n && ws[i].0 == target implies r.contains(i as usize) by {
            if i < n - 1 {
                let a = choose|a: int| 0 <= a < r0.len() && r0[a] == i as usize;
                assert(r[a] == r0[a]);
            } else {
                assert(r[r.len() - 1] == (n - 1) as usize);
            }
        }
    }
}

/// Translating words through a table and adding them keeps every word's
/// number the one that its symbols spell.
pub proof fn law_numbers_stay_matched(
    walk: Seq<(i32, Seq<Seq<char>>)>,
    before: Seq<(Seq<char>, Seq<char>, Seq<Seq<char>>)>,
    words: Seq<(Seq<char>, Seq<Seq<char>>)>,
)
    requires
        numbers_match(walk, before),
    ensures
        numbers_match(
            walk,
            before + words.map_values(|w: (Seq<char>, Seq<Seq<char>>)| translation(walk, w)),
        ),
{
    let after = before + words.map_values(|w: (Seq<char>, Seq<Seq<char>>)| translation(walk, w));
    assert forall|i: int| 0 <= i < after.len() implies #[trigger] after[i] == translation(
        walk,
        (after[i].1, after[i].2),
    ) by {
        if i < before.len() {
            assert(after[i] == before[i]);
        } else {
            let w = words[i - before.len()];
            assert(after[i] == translation(walk, w));
        }
    }
}

/// The number given to a symbol in the frequencies is -1 where no number of
/// the table holds the symbol, and otherwise a number of the table that holds
/// it: the only one, where one number alone holds it.
pub proof fn law_symbol_number_or_missing(
    walk: Seq<(i32, Seq<Seq<char>>)>,
    table: Map<i32, Seq<Seq<char>>>,
    sym: Seq<char>,
)
    requires
        walk_lists(walk, table),
    ensures
        (forall|k: i32| #[trigger] table.contains_key(k) ==> !table[k].contains(sym)) ==> number_or_missing(
            walk,
            sym,
        ) == -1,
        (exists|k: i32| #[trigger] table.contains_key(k) && table[k].contains(sym)) ==> {
            &&& table.contains_key(number_or_missing(walk, sym))
            &&& table[number_or_missing(walk, sym)].contains(sym)
        },
        forall|k: i32|
            #![trigger table.contains_key(k)]
            table.contains_key(k) && table[k].contains(sym) && (forall|k2: i32|
                #[trigger] table.contains_key(k2) && table[k2].contains(sym) ==> k2 == k) ==> number_or_missing(
                walk,
                sym,
            ) == k,
{
    lemma_first_number_in_table(walk, table, sym);
}

/// Adding words in two batches gives the words that adding them in one does.
pub proof fn law_add_in_batches(
    walk: Seq<(i32, Seq<Seq<char>>)>,
    before: Seq<(Seq<char>, Seq<char>, Seq<Seq<char>>)>,
    first: Seq<WordIpaPair>,
    second: Seq<WordIpaPair>,
)
    ensures
        before + first.map_values(|w: WordIpaPair| translation(walk, w@)) + second.map_values(
            |w: WordIpaPair| translation(walk, w@),
        ) == before + (first + second).map_values(|w: WordIpaPair| translation(walk, w@)),
{
    let f = |w: WordIpaPair| translation(walk, w@);
    assert((first + second).map_values(f) =~= first.map_values(f) + second.map_values(f));
    assert(before + first.map_values(f) + second.map_values(f) =~= before + (first.map_values(f)
        + second.map_values(f)));
}

/// The sum of the occurrences in `all` of each of `syms`.
pub open spec fn occurrence_sum(syms: Seq<Seq<char>>, all: Seq<Seq<char>>) -> int
    decreases syms.len(),
{
    if syms.len() == 0 {
        0
    } else {
        occurrence_sum(syms.drop_last(), all) + occurrences(all, syms.last())
    }
}

proof fn lemma_occurrence_sum_push(syms: Seq<Seq<char>>, all: Seq<Seq<char>>, x: Seq<char>)
    ensures
        occurrence_sum(syms, all.push(x)) == occurrence_sum(syms, all) + occurrences(syms, x),
    decreases syms.len(),
{
    assert(all.push(x).drop_last() =~= all);
    if syms.len() > 0 {
        lemma_occurrence_sum_push(syms.drop_last(), all, x);
    }
}

proof fn lemma_occurrences_of_distinct(syms: Seq<Seq<char>>, x: Seq<char>)
    requires
        forall|i: int, j: int| 0 <= i < j < syms.len() ==> #[trigger] syms[i] != #[trigger] syms[j],
        syms.contains(x),
    ensures
        occurrences(syms, x) == 1,
    decreases syms.len(),
{
    let d = syms.drop_last();
    let last = syms.len() - 1;
    assert(syms[last] == syms.last());
    assert forall|i: int, j: int| 0 <= i < j < d.len() implies #[trigger] d[i] != #[trigger] d[j] by {
        assert(d[i] == syms[i] && d[j] == syms[j]);
    }
    if syms.last() == x {
        assert(!d.contains(x)) by {
            if d.contains(x) {
                let i = choose|i: int| 0 <= i < d.len() && d[i] == x;
                assert(syms[i] == syms[last]);
            }
        }
        lemma_occurrences_bounds(d, x);
    } else {
        let i = choose|i: int| 0 <= i < syms.len() && syms[i] == x;
        assert(d[i] == x);
        lemma_occurrences_of_distinct(d, x);
    }
}

/// Counting each distinct symbol once accounts for every symbol: where
/// `syms` holds each symbol of `all` exactly once, the occurrences of `syms`
/// in `all` add up to the number of symbols in `all`.
pub proof fn law_frequencies_add_up(syms: Seq<Seq<char>>, all: Seq<Seq<char>>)
    requires
        forall|i: int, j: int| 0 <= i < j < syms.len() ==> #[trigger] syms[i] != #[trigger] syms[j],
        forall|x: Seq<char>| all.contains(x) ==> syms.contains(x),
    ensures
        occurrence_sum(syms, all) == all.len(),
    decreases all.len(),
{
    if all.len() == 0 {
        lemma_occurrence_sum_empty(syms, all);
    } else {
        let d = all.drop_last();
        let x = all.last();
        assert forall|y: Seq<char>| d.contains(y) implies syms.contains(y) by {
            let i = choose|i: int| 0 <= i < d.len() && d[i] == y;
            assert(all[i] == y);
        }
        law_frequencies_add_up(syms, d);
        assert(all == d.push(x));
        assert(all[all.len() - 1] == x);
        lemma_occurrence_sum_push(syms, d, x);
        lemma_occurrences_of_distinct(syms, x);
    }
}

proof fn lemma_occurrence_sum_empty(syms: Seq<Seq<char>>, all: Seq<Seq<char>>)
    requires
        all.len() == 0,
    ensures
        occurrence_sum(syms, all) == 0,
    decreases syms.len(),
{
    if syms.len() > 0 {
        lemma_occurrence_sum_empty(syms.drop_last(), all);
    }
}

} // verus!
