//! Reading the CMU pronouncing dictionary: each entry line is a word, two
//! spaces, and its ARPAbet symbols separated by single spaces, with stress
//! digits attached to the vowels.
use vstd::prelude::*;
use crate::number_word_translator::WordIpaPair;
use crate::symbol_map::{lookup, SymbolMap};
use crate::text::{
    chars_of, lines_spec, read_lines, remove_numerals, split_chars, split_once, split_once_spec,
    split_spec, without_numerals,
};
use crate::util::{strip_newline, without_newline};

verus! {

/// The number of comment lines at the head of the dictionary file.
pub const CMU_HEADER_LINES: usize = 56;

/// The symbols of a pronunciation: its space-separated pieces without their numerals.
pub open spec fn cmu_symbols(pronunciation: Seq<char>) -> Seq<Seq<char>> {
    split_spec(pronunciation, seq![' ']).map_values(|p: Seq<char>| without_numerals(p))
}

/// The symbols that `syms` map to, or `None` if the table lacks one of them.
pub open spec fn translate_all(
    entries: Seq<(Seq<char>, Seq<char>)>,
    syms: Seq<Seq<char>>,
) -> Option<Seq<Seq<char>>>
    decreases syms.len(),
{
    if syms.len() == 0 {
        Some(seq![])
    } else {
        match (translate_all(entries, syms.drop_last()), lookup(entries, syms.last())) {
            (Some(r), Some(v)) => Some(r.push(v)),
            _ => None,
        }
    }
}

/// The word and its translated symbols on one dictionary line; `None` if the
/// line has no two spaces or a symbol the table lacks.
pub open spec fn cmu_entry(line: Seq<char>, entries: Seq<(Seq<char>, Seq<char>)>) -> Option<
    (Seq<char>, Seq<Seq<char>>),
> {
    match split_once_spec(line, seq![' ', ' ']) {
        None => None,
        Some((word, pronunciation)) => match translate_all(entries, cmu_symbols(pronunciation)) {
            None => None,
            Some(ipa) => Some((word, ipa)),
        },
    }
}

/// The entries of the lines `lines`, or `None` if one line has none.
pub open spec fn cmu_entries(lines: Seq<Seq<char>>, entries: Seq<(Seq<char>, Seq<char>)>) -> Option<
    Seq<(Seq<char>, Seq<Seq<char>>)>,
>
    decreases lines.len(),
{
    if lines.len() == 0 {
        Some(seq![])
    } else {
        match (cmu_entries(lines.drop_last(), entries), cmu_entry(lines.last(), entries)) {
            (Some(r), Some(e)) => Some(r.push(e)),
            _ => None,
        }
    }
}

/// The lines after the header, without their line feeds.
pub open spec fn dictionary_lines(text: Seq<char>) -> Seq<Seq<char>> {
    let lines = lines_spec(text);
    if lines.len() <= CMU_HEADER_LINES {
        seq![]
    } else {
        lines.skip(CMU_HEADER_LINES as int).map_values(|l: Seq<char>| without_newline(l))
    }
}

/// The entries of a whole dictionary text.
pub open spec fn cmu_dictionary(text: Seq<char>, entries: Seq<(Seq<char>, Seq<char>)>) -> Option<
    Seq<(Seq<char>, Seq<Seq<char>>)>,
> {
    cmu_entries(dictionary_lines(text), entries)
}

/// The views of a sequence of words with their symbols.
pub open spec fn ipa_pairs_view(ps: Seq<WordIpaPair>) -> Seq<(Seq<char>, Seq<Seq<char>>)> {
    ps.map_values(|p: WordIpaPair| p@)
}

/// Translates the symbols `syms`, each without its numerals, through `map`.
fn translate_symbols(map: &SymbolMap, syms: &Vec<String>) -> (res: Option<Vec<String>>)
    requires
        map.wf(),
    ensures
        match res {
            Some(v) => translate_all(
                map.entries(),
                syms.deep_view().map_values(|p: Seq<char>| without_numerals(p)),
            ) == Some(v.deep_view()),
            None => translate_all(
                map.entries(),
                syms.deep_view().map_values(|p: Seq<char>| without_numerals(p)),
            ) is None,
        },
{
    let ghost all = syms.deep_view().map_values(|p: Seq<char>| without_numerals(p));
    let mut out: Vec<String> = Vec::new();
    let n = syms.len();
    let mut i: usize = 0;
    while i < n
        invariant
            n == syms@.len(),
            map.wf(),
            all == syms.deep_view().map_values(|p: Seq<char>| without_numerals(p)),
            i <= n,
            translate_all(map.entries(), all.take(i as int)) == Some(out.deep_view()),
        decreases n - i,
    {
        let sym = remove_numerals(syms[i].as_str());
        assert(all.take(i + 1).drop_last() =~= all.take(i as int));
        assert(all.take(i + 1).last() == sym@);
        match map.get(sym.as_slice()) {
            None => {
                proof {
                    lemma_translate_all_fails(map.entries(), all, i as int);
                }
                return None;
            },
            Some(v) => {
                let ghost before = out.deep_view();
                out.push(v.clone());
                assert(out.deep_view() =~= before.push(v@));
            },
        }
        i += 1;
    }
    assert(all.take(n as int) =~= all);
    Some(out)
}

/// Once a prefix of the symbols fails to translate, all of them do.
proof fn lemma_translate_all_fails(entries: Seq<(Seq<char>, Seq<char>)>, syms: Seq<Seq<char>>, i: int)
    requires
        0 <= i < syms.len(),
        translate_all(entries, syms.take(i + 1)) is None,
    ensures
        translate_all(entries, syms) is None,
    decreases syms.len() - i,
{
    if i + 1 < syms.len() {
        assert(syms.take(i + 2).drop_last() =~= syms.take(i + 1));
        lemma_translate_all_fails(entries, syms, i + 1);
    } else {
        assert(syms.take(i + 1) =~= syms);
    }
}

/// Once a prefix of the lines has a line without an entry, all of them do.
proof fn lemma_cmu_entries_fail(
    lines: Seq<Seq<char>>,
    entries: Seq<(Seq<char>, Seq<char>)>,
    i: int,
)
    requires
        0 <= i < lines.len(),
        cmu_entries(lines.take(i + 1), entries) is None,
    ensures
        cmu_entries(lines, entries) is None,
    decreases lines.len() - i,
{
    if i + 1 < lines.len() {
        assert(lines.take(i + 2).drop_last() =~= lines.take(i + 1));
        lemma_cmu_entries_fail(lines, entries, i + 1);
    } else {
        assert(lines.take(i + 1) =~= lines);
    }
}

/// The word and its IPA symbols on one dictionary line.
pub fn parse_cmu_line(line: &str, translate_map: &SymbolMap) -> (res: Option<WordIpaPair>)
    requires
        translate_map.wf(),
    ensures
        match res {
            Some(p) => cmu_entry(line@, translate_map.entries()) == Some(p@),
            None => cmu_entry(line@, translate_map.entries()) is None,
        },
{
    let cs = chars_of(line);
    let two_spaces: Vec<char> = vec![' ', ' '];
    assert(two_spaces@ =~= seq![' ', ' ']);
    match split_once(cs.as_slice(), two_spaces.as_slice()) {
        None => None,
        Some((word, pronunciation)) => {
            let pc = chars_of(pronunciation.as_str());
            let space: Vec<char> = vec![' '];
            assert(space@ =~= seq![' ']);
            let pieces = split_chars(pc.as_slice(), space.as_slice());
            match translate_symbols(translate_map, &pieces) {
                None => None,
                Some(ipa) => Some(WordIpaPair { word, ipa_symbols: ipa }),
            }
        },
    }
}

/// Reads the entries of the CMU dictionary from its text: the lines after the
/// header, each without its line feed, give a word and its symbols, which
/// `translate_map` turns into IPA. `None` if a line has no two spaces or a
/// symbol that the table lacks.
/// A malformed input is no panic here: it is reported as `None`, for the
/// caller to stop on.
pub fn parse_cmu(text: &str, translate_map: &SymbolMap) -> (res: Option<Vec<WordIpaPair>>)
    requires
        translate_map.wf(),
    ensures
        match res {
            Some(v) => cmu_dictionary(text@, translate_map.entries()) == Some(ipa_pairs_view(v@)),
            None => cmu_dictionary(text@, translate_map.entries()) is None,
        },
{
    let cs = chars_of(text);
    let lines = read_lines(cs.as_slice());
    let ghost ds = dictionary_lines(text@);
    let mut values: Vec<WordIpaPair> = Vec::new();
    let n = lines.len();
    if n <= CMU_HEADER_LINES {
        assert(ds =~= seq![]);
        assert(ipa_pairs_view(values@) =~= seq![]);
        return Some(values);
    }
    let mut j: usize = 0;
    while j < n - CMU_HEADER_LINES
        invariant
            n == lines@.len(),
            n > CMU_HEADER_LINES,
            lines.deep_view() == lines_spec(text@),
            ds == dictionary_lines(text@),
            ds.len() == n - CMU_HEADER_LINES,
            translate_map.wf(),
            j <= n - CMU_HEADER_LINES,
            cmu_entries(ds.take(j as int), translate_map.entries()) == Some(ipa_pairs_view(values@)),
        decreases n - CMU_HEADER_LINES - j,
    {
        let line = strip_newline(lines[j + CMU_HEADER_LINES].clone());
        assert(line@ == ds[j as int]);
        assert(ds.take(j + 1).drop_last() =~= ds.take(j as int));
        match parse_cmu_line(line.as_str(), translate_map) {
            None => {
                proof {
                    lemma_cmu_entries_fail(ds, translate_map.entries(), j as int);
                }
                return None;
            },
            Some(p) => {
                let ghost before = ipa_pairs_view(values@);
                values.push(p);
                assert(ipa_pairs_view(values@) =~= before.push(p@));
            },
        }
        j += 1;
    }
    assert(ds.take(ds.len() as int) =~= ds);
    Some(values)
}

} // verus!
