//! Reading the NST pronunciation lexicon: Windows-1252 text whose lines are
//! `;`-separated fields, the first the word and the twelfth its X-SAMPA
//! transcription; and the cache file that keeps the result as
//! `word@@symbol@@symbol` lines.
use encoding_rs::WINDOWS_1252;
use vstd::prelude::*;
use crate::cmu_parser::ipa_pairs_view;
use crate::number_word_translator::WordIpaPair;
use crate::symbol_map::{lemma_longest_entry_at, longest_entry_at, SymbolMap};
use crate::text::{chars_of, lines_spec, read_lines, split_chars, split_spec};
use crate::text::{
    find_from, lemma_find_first, lemma_find_none, lemma_lines_shift, lemma_split_shift, lines_from,
    occurs_at, push_char, split_from,
};
use crate::util::{strip_newline, without_newline};

verus! {

/// The character that a Windows-1252 byte stands for: the byte's own code
/// point, but for the bytes 0x80 to 0x9F that the encoding gives other
/// characters (0x81, 0x8D, 0x8F, 0x90 and 0x9D keep their own code point).
pub open spec fn windows_1252_char(b: u8) -> char {
    match b {
        0x80u8 => '\u{20AC}',
        0x82u8 => '\u{201A}',
        0x83u8 => '\u{0192}',
        0x84u8 => '\u{201E}',
        0x85u8 => '\u{2026}',
        0x86u8 => '\u{2020}',
        0x87u8 => '\u{2021}',
        0x88u8 => '\u{02C6}',
        0x89u8 => '\u{2030}',
        0x8Au8 => '\u{0160}',
        0x8Bu8 => '\u{2039}',
        0x8Cu8 => '\u{0152}',
        0x8Eu8 => '\u{017D}',
        0x91u8 => '\u{2018}',
        0x92u8 => '\u{2019}',
        0x93u8 => '\u{201C}',
        0x94u8 => '\u{201D}',
        0x95u8 => '\u{2022}',
        0x96u8 => '\u{2013}',
        0x97u8 => '\u{2014}',
        0x98u8 => '\u{02DC}',
        0x99u8 => '\u{2122}',
        0x9Au8 => '\u{0161}',
        0x9Bu8 => '\u{203A}',
        0x9Cu8 => '\u{0153}',
        0x9Eu8 => '\u{017E}',
        0x9Fu8 => '\u{0178}',
        _ => b as char,
    }
}

/// The text that Windows-1252 bytes stand for: one character per byte.
pub open spec fn windows_1252_text(bytes: Seq<u8>) -> Seq<char> {
    bytes.map_values(|b: u8| windows_1252_char(b))
}

/// Decodes Windows-1252 bytes, through `encoding_rs::WINDOWS_1252.decode_with_bom_removal`.
///
/// Trusted. Each byte becomes one character, as the encoding's table gives
/// it; no byte is malformed in this encoding, and no byte-order mark is
/// removed for it. The crate sizes its buffer as three bytes of output per
/// byte of input and panics where that overflows `usize`, which `requires`
/// rules out.
#[verifier::external_body]
pub(crate) fn decode_windows_1252(bytes: &[u8]) -> (res: String)
    requires
        3 * bytes@.len() <= usize::MAX,
    ensures
        res@ == windows_1252_text(bytes@),
{
    WINDOWS_1252.decode_with_bom_removal(bytes).0.into_owned()
}

/// The field of a lexicon line that holds the X-SAMPA transcription.
pub const XSAMPA_FIELD: usize = 11;

/// The IPA symbols of `t[i..]`: at each position the longest key of the table
/// that occurs there gives its symbol. `None` where no key, or only an empty
/// one, occurs at a position.
pub open spec fn tokens_from(entries: Seq<(Seq<char>, Seq<char>)>, t: Seq<char>, i: int) -> Option<
    Seq<Seq<char>>,
>
    decreases t.len() - i,
{
    if i < 0 || i >= t.len() {
        Some(seq![])
    } else {
        match longest_entry_at(entries, t, i) {
            None => None,
            Some(e) => if e.0.len() == 0 {
                None
            } else {
                proof {
                    lemma_longest_entry_at(entries, t, i);
                }
                match tokens_from(entries, t, i + e.0.len()) {
                    None => None,
                    Some(rest) => Some(seq![e.1] + rest),
                }
            },
        }
    }
}

/// A transcription that tokenizes is cut, from `i` on, into non-empty keys of
/// the table that spell it in order, and each symbol is the one that the
/// table gives its key.
pub proof fn law_tokens_cut_into_keys(entries: Seq<(Seq<char>, Seq<char>)>, t: Seq<char>, i: int)
    requires
        0 <= i <= t.len(),
    ensures
        tokens_from(entries, t, i) matches Some(ts) ==> exists|ks: Seq<Seq<char>>|
            {
                &&& ks.len() == ts.len()
                &&& #[trigger] ks.flatten() == t.skip(i)
                &&& forall|j: int|
                    0 <= j < ks.len() ==> #[trigger] entries.contains((ks[j], ts[j])) && ks[j].len() > 0
            },
    decreases t.len() - i,
{
    if i < t.len() {
        lemma_longest_entry_at(entries, t, i);
        if let Some(e) = longest_entry_at(entries, t, i) {
            if e.0.len() > 0 {
                law_tokens_cut_into_keys(entries, t, i + e.0.len());
                if let Some(rest) = tokens_from(entries, t, i + e.0.len()) {
                    let ts = seq![e.1] + rest;
                    let kr = choose|ks: Seq<Seq<char>>|
                        {
                            &&& ks.len() == rest.len()
                            &&& #[trigger] ks.flatten() == t.skip(i + e.0.len())
                            &&& forall|j: int|
                                0 <= j < ks.len() ==> #[trigger] entries.contains((ks[j], rest[j])) && ks[j].len() > 0
                        };
                    let ks = seq![e.0] + kr;
                    assert(ks.drop_first() =~= kr);
                    assert(ks.first() == e.0);
                    assert(t.subrange(i, i + e.0.len()) == e.0);
                    assert(t.skip(i) =~= e.0 + t.skip(i + e.0.len()));
                    assert(ks.flatten() == e.0 + kr.flatten());
                    assert forall|j: int| 0 <= j < ks.len() implies #[trigger] entries.contains((ks[j], ts[j]))
                        && ks[j].len() > 0 by {
                        if j > 0 {
                            assert(ks[j] == kr[j - 1]);
                            assert(ts[j] == rest[j - 1]);
                            assert(entries.contains((kr[j - 1], rest[j - 1])));
                        } else {
                            assert((ks[0], ts[0]) == e);
                        }
                    }
                    assert(tokens_from(entries, t, i) == Some(ts));
                }
            }
        }
    } else {
        if tokens_from(entries, t, i) is Some {
            let ks = Seq::<Seq<char>>::empty();
            assert(t.skip(i) =~= Seq::<char>::empty());
            assert(ks.flatten() =~= t.skip(i));
        }
    }
}

/// The word and IPA symbols of one lexicon line; `None` if the line has
/// fewer than twelve fields or its transcription does not tokenize.
pub open spec fn nst_entry(line: Seq<char>, entries: Seq<(Seq<char>, Seq<char>)>) -> Option<
    (Seq<char>, Seq<Seq<char>>),
> {
    let fields = split_spec(line, seq![';']);
    if fields.len() <= XSAMPA_FIELD {
        None
    } else {
        match tokens_from(entries, fields[XSAMPA_FIELD as int], 0) {
            None => None,
            Some(ipa) => Some((fields[0], ipa)),
        }
    }
}

/// The entries of the lines `lines`, or `None` if one line has none.
pub open spec fn nst_entries(lines: Seq<Seq<char>>, entries: Seq<(Seq<char>, Seq<char>)>) -> Option<
    Seq<(Seq<char>, Seq<Seq<char>>)>,
>
    decreases lines.len(),
{
    if lines.len() == 0 {
        Some(seq![])
    } else {
        match (nst_entries(lines.drop_last(), entries), nst_entry(lines.last(), entries)) {
            (Some(r), Some(e)) => Some(r.push(e)),
            _ => None,
        }
    }
}

/// The lines of a text, each without its line feed.
pub open spec fn bare_lines(text: Seq<char>) -> Seq<Seq<char>> {
    lines_spec(text).map_values(|l: Seq<char>| without_newline(l))
}

/// The entries of a whole lexicon, given as its bytes.
pub open spec fn nst_lexicon(bytes: Seq<u8>, entries: Seq<(Seq<char>, Seq<char>)>) -> Option<
    Seq<(Seq<char>, Seq<Seq<char>>)>,
> {
    nst_entries(bare_lines(windows_1252_text(bytes)), entries)
}

/// Turns an X-SAMPA transcription into IPA symbols, taking at each position
/// the longest key of `map` that occurs there.
pub fn xsampa_to_ipa(xsampa: &[char], map: &SymbolMap) -> (res: Option<Vec<String>>)
    requires
        map.wf(),
    ensures
        match res {
            Some(v) => tokens_from(map.entries(), xsampa@, 0) == Some(v.deep_view()),
            None => tokens_from(map.entries(), xsampa@, 0) is None,
        },
{
    let ghost es = map.entries();
    let ghost t = xsampa@;
    let n = xsampa.len();
    let mut ipa_word: Vec<String> = Vec::new();
    let mut idx: usize = 0;
    while idx < n
        invariant
            n == t.len(),
            t == xsampa@,
            es == map.entries(),
            map.wf(),
            idx <= n,
            tokens_from(es, t, 0) == (match tokens_from(es, t, idx as int) {
                Some(rest) => Some(ipa_word.deep_view() + rest),
                None => None,
            }),
        decreases n - idx,
    {
        match map.longest_key_at(xsampa, idx) {
            None => {
                return None;
            },
            Some(j) => {
                let size = map.key_len_at(j);
                if size == 0 {
                    return None;
                }
                proof {
                    lemma_longest_entry_at(es, t, idx as int);
                }
                let ghost before = ipa_word.deep_view();
                let value = map.value_at(j);
                ipa_word.push(value.clone());
                assert(ipa_word.deep_view() =~= before.push(value@));
                proof {
                    match tokens_from(es, t, idx + size) {
                        Some(rest) => {
                            assert(before + (seq![value@] + rest) =~= ipa_word.deep_view() + rest);
                        },
                        None => {},
                    }
                }
                idx += size;
            },
        }
    }
    assert(ipa_word.deep_view() + seq![] =~= ipa_word.deep_view());
    Some(ipa_word)
}

/// Once a prefix of the lines has a line without an entry, all of them do.
proof fn lemma_nst_entries_fail(lines: Seq<Seq<char>>, entries: Seq<(Seq<char>, Seq<char>)>, i: int)
    requires
        0 <= i < lines.len(),
        nst_entries(lines.take(i + 1), entries) is None,
    ensures
        nst_entries(lines, entries) is None,
    decreases lines.len() - i,
{
    if i + 1 < lines.len() {
        assert(lines.take(i + 2).drop_last() =~= lines.take(i + 1));
        lemma_nst_entries_fail(lines, entries, i + 1);
    } else {
        assert(lines.take(i + 1) =~= lines);
    }
}

/// The word and IPA symbols of one lexicon line.
pub fn parse_nst_line(line: &str, translate_map: &SymbolMap) -> (res: Option<WordIpaPair>)
    requires
        translate_map.wf(),
    ensures
        match res {
            Some(p) => nst_entry(line@, translate_map.entries()) == Some(p@),
            None => nst_entry(line@, translate_map.entries()) is None,
        },
{
    let cs = chars_of(line);
    let semicolon: Vec<char> = vec![';'];
    assert(semicolon@ =~= seq![';']);
    let fields = split_chars(cs.as_slice(), semicolon.as_slice());
    if fields.len() <= XSAMPA_FIELD {
        return None;
    }
    let xs = chars_of(fields[XSAMPA_FIELD].as_str());
    match xsampa_to_ipa(xs.as_slice(), translate_map) {
        None => None,
        Some(ipa) => {
            let word = fields[0].clone();
            Some(WordIpaPair { word, ipa_symbols: ipa })
        },
    }
}

/// Reads the entries of the NST lexicon from the bytes of its file: every
/// line, without its line feed, gives a word and the IPA symbols of its
/// transcription. `None` if a line has fewer than twelve fields or a
/// transcription that does not tokenize.
/// A malformed input is no panic here: it is reported as `None`, for the
/// caller to stop on.
pub fn parse_nst(bytes: &[u8], translate_map: &SymbolMap) -> (res: Option<Vec<WordIpaPair>>)
    requires
        translate_map.wf(),
        3 * bytes@.len() <= usize::MAX,
    ensures
        match res {
            Some(v) => nst_lexicon(bytes@, translate_map.entries()) == Some(ipa_pairs_view(v@)),
            None => nst_lexicon(bytes@, translate_map.entries()) is None,
        },
{
    let text = decode_windows_1252(bytes);
    let cs = chars_of(text.as_str());
    let lines = read_lines(cs.as_slice());
    let ghost ls = bare_lines(windows_1252_text(bytes@));
    let mut values: Vec<WordIpaPair> = Vec::new();
    let n = lines.len();
    let mut j: usize = 0;
    while j < n
        invariant
            n == lines@.len(),
            lines.deep_view() == lines_spec(windows_1252_text(bytes@)),
            ls == bare_lines(windows_1252_text(bytes@)),
            ls.len() == n,
            translate_map.wf(),
            j <= n,
            nst_entries(ls.take(j as int), translate_map.entries()) == Some(ipa_pairs_view(values@)),
        decreases n - j,
    {
        let line = strip_newline(lines[j].clone());
        assert(line@ == ls[j as int]);
        assert(ls.take(j + 1).drop_last() =~= ls.take(j as int));
        match parse_nst_line(line.as_str(), translate_map) {
            None => {
                proof {
                    lemma_nst_entries_fail(ls, translate_map.entries(), j as int);
                }
                return None;
            },
            Some(p) => {
                let ghost before = ipa_pairs_view(values@);
                values.push(p);
                assert(ipa_pairs_view(values@) =~= before.push(p@));
            },
        }
        j += 1;
    }
    assert(ls.take(n as int) =~= ls);
    Some(values)
}

/// The separator between the fields of a cache line.
pub open spec fn cache_separator() -> Seq<char> {
    seq!['@', '@']
}

/// The word and the symbols of one cache line: its first `@@`-separated
/// field and the rest.
pub open spec fn cache_entry(line: Seq<char>) -> (Seq<char>, Seq<Seq<char>>) {
    let pieces = split_spec(line, cache_separator());
    (pieces[0], pieces.drop_first())
}

/// The entries of a cache file, one per line.
pub open spec fn cache_entries(text: Seq<char>) -> Seq<(Seq<char>, Seq<Seq<char>>)> {
    bare_lines(text).map_values(|l: Seq<char>| cache_entry(l))
}

/// `parts` joined with `sep` between them.
pub open spec fn joined(parts: Seq<Seq<char>>, sep: Seq<char>) -> Seq<char>
    decreases parts.len(),
{
    if parts.len() == 0 {
        seq![]
    } else if parts.len() == 1 {
        parts[0]
    } else {
        parts[0] + sep + joined(parts.drop_first(), sep)
    }
}

/// The cache line of a word and its symbols.
pub open spec fn cache_line(p: (Seq<char>, Seq<Seq<char>>)) -> Seq<char> {
    p.0 + cache_separator() + joined(p.1, cache_separator()) + seq!['\n']
}

/// The text of a cache file that holds `ps`.
pub open spec fn cache_text(ps: Seq<(Seq<char>, Seq<Seq<char>>)>) -> Seq<char> {
    ps.map_values(|p: (Seq<char>, Seq<Seq<char>>)| cache_line(p)).flatten()
}

/// Reads the words and symbols kept in a cache file from its text.
pub fn parse_cache(text: &str) -> (res: Vec<WordIpaPair>)
    ensures
        ipa_pairs_view(res@) == cache_entries(text@),
{
    let cs = chars_of(text);
    let lines = read_lines(cs.as_slice());
    let ghost es = cache_entries(text@);
    let sep: Vec<char> = vec!['@', '@'];
    assert(sep@ =~= cache_separator());
    let mut values: Vec<WordIpaPair> = Vec::new();
    let n = lines.len();
    let mut j: usize = 0;
    while j < n
        invariant
            n == lines@.len(),
            lines.deep_view() == lines_spec(text@),
            es == cache_entries(text@),
            es.len() == n,
            sep@ == cache_separator(),
            j <= n,
            ipa_pairs_view(values@) == es.take(j as int),
        decreases n - j,
    {
        let line = strip_newline(lines[j].clone());
        let lc = chars_of(line.as_str());
        let pieces = split_chars(lc.as_slice(), sep.as_slice());
        let word = pieces[0].clone();
        let mut symbols: Vec<String> = Vec::new();
        let m = pieces.len();
        let mut k: usize = 1;
        while k < m
            invariant
                m == pieces@.len(),
                1 <= k <= m,
                symbols.deep_view() == pieces.deep_view().subrange(1, k as int),
            decreases m - k,
        {
            let ghost before = symbols.deep_view();
            symbols.push(pieces[k].clone());
            assert(symbols.deep_view() =~= before.push(pieces@[k as int]@));
            assert(pieces.deep_view()[k as int] == pieces@[k as int]@);
            assert(symbols.deep_view() =~= pieces.deep_view().subrange(1, k + 1));
            k += 1;
        }
        assert(symbols.deep_view() =~= pieces.deep_view().drop_first());
        let p = WordIpaPair { word, ipa_symbols: symbols };
        assert(p@ == es[j as int]);
        let ghost before = ipa_pairs_view(values@);
        values.push(p);
        assert(ipa_pairs_view(values@) =~= before.push(p@));
        assert(es.take(j + 1) =~= es.take(j as int).push(es[j as int]));
        j += 1;
    }
    assert(es.take(n as int) =~= es);
    values
}

/// The cache line of `p`.
fn format_cache_line(p: &WordIpaPair) -> (res: String)
    ensures
        res@ == cache_line(p@),
{
    let mut line = String::new();
    line.append(p.word.as_str());
    line.append("@@");
    proof {
        reveal_strlit("@@");
    }
    let ghost syms = p.ipa_symbols.deep_view();
    let n = p.ipa_symbols.len();
    let mut i: usize = 0;
    let ghost head = p.word@ + cache_separator();
    assert(line@ =~= head);
    while i < n
        invariant
            n == p.ipa_symbols@.len(),
            syms == p.ipa_symbols.deep_view(),
            i <= n,
            head == p.word@ + cache_separator(),
            line@ == head + joined(syms.take(i as int), cache_separator()),
        decreases n - i,
    {
        let ghost line0 = line@;
        if i > 0 {
            line.append("@@");
            proof {
                reveal_strlit("@@");
            }
        }
        line.append(p.ipa_symbols[i].as_str());
        proof {
            let j = joined(syms.take(i as int), cache_separator());
            lemma_joined_push(syms.take(i as int), syms[i as int], cache_separator());
            assert(syms.take(i + 1) =~= syms.take(i as int).push(syms[i as int]));
            assert(syms[i as int] == p.ipa_symbols@[i as int]@);
            if i > 0 {
                assert(line@ =~= head + (j + cache_separator() + syms[i as int]));
            } else {
                assert(j =~= seq![]);
                assert(line@ =~= head + syms[i as int]);
            }
        }
        i += 1;
    }
    push_char(&mut line, '\n');
    assert(syms.take(n as int) =~= syms);
    assert(line@ =~= cache_line(p@));
    line
}

/// Joining one more part adds the separator and the part at the end.
proof fn lemma_joined_push(parts: Seq<Seq<char>>, last: Seq<char>, sep: Seq<char>)
    ensures
        joined(parts.push(last), sep) == if parts.len() == 0 {
            last
        } else {
            joined(parts, sep) + sep + last
        },
    decreases parts.len(),
{
    if parts.len() == 0 {
        assert(parts.push(last) =~= seq![last]);
    } else if parts.len() == 1 {
        assert(parts.push(last).drop_first() =~= seq![last]);
        assert(joined(seq![last], sep) == last);
        assert(parts.push(last)[0] == parts[0]);
    } else {
        lemma_joined_push(parts.drop_first(), last, sep);
        assert(parts.push(last).drop_first() =~= parts.drop_first().push(last));
        assert(parts.push(last)[0] == parts[0]);
        let j = joined(parts.drop_first(), sep);
        assert(joined(parts, sep) == parts[0] + sep + j);
        assert(parts[0] + sep + (j + sep + last) =~= parts[0] + sep + j + sep + last);
    }
}

/// The text of the cache file that keeps `pairs`.
pub fn format_cache(pairs: &Vec<WordIpaPair>) -> (res: String)
    ensures
        res@ == cache_text(ipa_pairs_view(pairs@)),
{
    let ghost ps = ipa_pairs_view(pairs@);
    let ghost f = |p: (Seq<char>, Seq<Seq<char>>)| cache_line(p);
    let mut text = String::new();
    let n = pairs.len();
    let mut i: usize = 0;
    while i < n
        invariant
            n == pairs@.len(),
            ps == ipa_pairs_view(pairs@),
            f == (|p: (Seq<char>, Seq<Seq<char>>)| cache_line(p)),
            i <= n,
            text@ == ps.take(i as int).map_values(f).flatten(),
        decreases n - i,
    {
        let line = format_cache_line(&pairs[i]);
        text.append(line.as_str());
        proof {
            assert(ps.take(i + 1).map_values(f) =~= ps.take(i as int).map_values(f).push(line@));
            ps.take(i as int).map_values(f).lemma_flatten_push(line@);
        }
        i += 1;
    }
    assert(ps.take(n as int) =~= ps);
    text
}

/// No character of `s` is `c`.
pub open spec fn free_of(s: Seq<char>, c: char) -> bool {
    forall|i: int| 0 <= i < s.len() ==> s[i] != c
}

/// `@@` occurs nowhere in `s`.
pub open spec fn free_of_separator(s: Seq<char>) -> bool {
    forall|j: int| !occurs_at(s, cache_separator(), j)
}

/// `s` ends with `'@'`.
pub open spec fn ends_with_at(s: Seq<char>) -> bool {
    s.len() > 0 && s.last() == '@'
}

/// A field of a cache line that a later field follows: no line feed, no
/// `@@`, and no `'@'` at its end, where it would run into the separator.
pub open spec fn inner_field(s: Seq<char>) -> bool {
    free_of(s, '\n') && free_of_separator(s) && !ends_with_at(s)
}

/// A word and symbols that a cache line can hold: at least one symbol; no
/// line feed and no `@@` in the word or in a symbol; and no `'@'` at the end
/// of the word or of a symbol but the last.
pub open spec fn cacheable(p: (Seq<char>, Seq<Seq<char>>)) -> bool {
    &&& p.1.len() > 0
    &&& inner_field(p.0)
    &&& forall|i: int|
        0 <= i < p.1.len() ==> free_of(#[trigger] p.1[i], '\n') && free_of_separator(p.1[i])
    &&& forall|i: int| 0 <= i < p.1.len() - 1 ==> !ends_with_at(#[trigger] p.1[i])
}

proof fn lemma_joined_free(parts: Seq<Seq<char>>, sep: Seq<char>, c: char)
    requires
        free_of(sep, c),
        forall|i: int| 0 <= i < parts.len() ==> free_of(#[trigger] parts[i], c),
    ensures
        free_of(joined(parts, sep), c),
    decreases parts.len(),
{
    if parts.len() > 1 {
        let d = parts.drop_first();
        assert forall|i: int| 0 <= i < d.len() implies free_of(#[trigger] d[i], c) by {
            assert(d[i] == parts[i + 1]);
        }
        lemma_joined_free(d, sep, c);
        assert(free_of(parts[0], c));
        let j = parts[0] + sep + joined(d, sep);
        assert forall|i: int| 0 <= i < j.len() implies j[i] != c by {
            if i < parts[0].len() {
            } else if i < parts[0].len() + sep.len() {
                assert(j[i] == sep[i - parts[0].len()]);
            } else {
                assert(j[i] == joined(d, sep)[i - parts[0].len() - sep.len()]);
            }
        }
    } else if parts.len() == 1 {
        assert(free_of(parts[0], c));
    }
}

/// Splitting parts joined with `@@` gives the parts back, when no part holds
/// `@@` and no part but the last ends with `'@'`.
proof fn lemma_split_joined(parts: Seq<Seq<char>>)
    requires
        parts.len() > 0,
        forall|i: int| 0 <= i < parts.len() ==> free_of_separator(#[trigger] parts[i]),
        forall|i: int| 0 <= i < parts.len() - 1 ==> !ends_with_at(#[trigger] parts[i]),
    ensures
        split_spec(joined(parts, cache_separator()), cache_separator()) == parts,
    decreases parts.len(),
{
    let sep = cache_separator();
    let t = joined(parts, sep);
    assert(free_of_separator(parts[0]));
    if parts.len() == 1 {
        lemma_find_none(t, sep, 0);
        assert(t.subrange(0, t.len() as int) =~= t);
        assert(split_spec(t, sep) =~= parts);
    } else {
        let d = parts.drop_first();
        assert forall|i: int| 0 <= i < d.len() implies free_of_separator(#[trigger] d[i]) by {
            assert(d[i] == parts[i + 1]);
        }
        assert forall|i: int| 0 <= i < d.len() - 1 implies !ends_with_at(#[trigger] d[i]) by {
            assert(d[i] == parts[i + 1]);
        }
        lemma_split_joined(d);
        let w = parts[0];
        assert(!ends_with_at(w));
        let rest = joined(d, sep);
        assert(t == w + sep + rest);
        assert(occurs_at(t, sep, w.len() as int)) by {
            assert(t.subrange(w.len() as int, w.len() + 2int) =~= sep);
        }
        assert forall|j: int| 0 <= j < w.len() implies !occurs_at(t, sep, j) by {
            if occurs_at(t, sep, j) {
                assert(t.subrange(j, j + 2)[0] == t[j]);
                assert(t.subrange(j, j + 2)[1] == t[j + 1]);
                assert(t[j] == w[j]);
                if j + 1 < w.len() {
                    assert(t[j + 1] == w[j + 1]);
                    assert(w.subrange(j, j + 2) =~= sep);
                    assert(!occurs_at(w, sep, j));
                } else {
                    assert(w.last() == w[j]);
                }
            }
        }
        lemma_find_first(t, sep, 0, w.len() as int);
        assert(t.subrange(0, w.len() as int) =~= w);
        assert(t =~= (w + sep) + rest);
        lemma_split_shift(w + sep, rest, sep, 0);
        assert(split_spec(t, sep) =~= seq![w] + d);
        assert(parts =~= seq![w] + d);
    }
}

/// A cache line ends with its only line feed.
proof fn lemma_cache_line_shape(p: (Seq<char>, Seq<Seq<char>>))
    requires
        cacheable(p),
    ensures
        cache_line(p).len() > 0,
        cache_line(p).last() == '\n',
        free_of(cache_line(p).drop_last(), '\n'),
        cache_line(p).drop_last() == joined(seq![p.0] + p.1, cache_separator()),
        cache_entry(cache_line(p).drop_last()) == p,
{
    let sep = cache_separator();
    let parts = seq![p.0] + p.1;
    assert(parts.drop_first() =~= p.1);
    assert(parts[0] == p.0);
    assert(joined(parts, sep) == p.0 + sep + joined(p.1, sep));
    assert(cache_line(p).drop_last() =~= joined(parts, sep));
    assert forall|i: int| 0 <= i < parts.len() implies free_of(#[trigger] parts[i], '\n')
        && free_of_separator(parts[i]) by {
        if i > 0 {
            assert(parts[i] == p.1[i - 1]);
        }
    }
    assert forall|i: int| 0 <= i < parts.len() - 1 implies !ends_with_at(#[trigger] parts[i]) by {
        if i > 0 {
            assert(parts[i] == p.1[i - 1]);
        }
    }
    lemma_joined_free(parts, sep, '\n');
    lemma_split_joined(parts);
}

/// The lines of a cache text are its cache lines.
proof fn lemma_cache_text_lines(ps: Seq<(Seq<char>, Seq<Seq<char>>)>)
    requires
        forall|i: int| 0 <= i < ps.len() ==> cacheable(#[trigger] ps[i]),
    ensures
        lines_spec(cache_text(ps)) == ps.map_values(|p: (Seq<char>, Seq<Seq<char>>)| cache_line(p)),
    decreases ps.len(),
{
    let f = |p: (Seq<char>, Seq<Seq<char>>)| cache_line(p);
    if ps.len() > 0 {
        let d = ps.drop_first();
        assert forall|i: int| 0 <= i < d.len() implies cacheable(#[trigger] d[i]) by {
            assert(d[i] == ps[i + 1]);
        }
        lemma_cache_text_lines(d);
        assert(ps.map_values(f).drop_first() =~= d.map_values(f));
        let l0 = cache_line(ps[0]);
        let rest = cache_text(d);
        assert(cache_text(ps) == l0 + rest);
        let t = l0 + rest;
        assert(cacheable(ps[0]));
        lemma_cache_line_shape(ps[0]);
        let e = l0.len() - 1;
        assert(occurs_at(t, seq!['\n'], e)) by {
            assert(t.subrange(e, e + 1) =~= seq!['\n']);
        }
        assert forall|j: int| 0 <= j < e implies !occurs_at(t, seq!['\n'], j) by {
            if occurs_at(t, seq!['\n'], j) {
                assert(t.subrange(j, j + 1)[0] == t[j]);
                assert(t[j] == l0.drop_last()[j]);
            }
        }
        lemma_find_first(t, seq!['\n'], 0, e);
        assert(t.subrange(0, e + 1) =~= l0);
        lemma_lines_shift(l0, rest, 0);
        assert(lines_spec(t) =~= seq![l0] + lines_spec(rest));
        assert(ps.map_values(f) =~= seq![l0] + d.map_values(f));
    } else {
        assert(cache_text(ps) =~= seq![]);
        assert(ps.map_values(f) =~= seq![]);
    }
}

/// Reading back the cache text of words and symbols gives them back, where
/// each has at least one symbol, no field holds a line feed or `@@`, and
/// no field but the last symbol ends with `'@'`.
pub proof fn law_cache_round_trip(ps: Seq<(Seq<char>, Seq<Seq<char>>)>)
    requires
        forall|i: int| 0 <= i < ps.len() ==> cacheable(#[trigger] ps[i]),
    ensures
        cache_entries(cache_text(ps)) == ps,
{
    let f = |p: (Seq<char>, Seq<Seq<char>>)| cache_line(p);
    lemma_cache_text_lines(ps);
    let ls = lines_spec(cache_text(ps));
    assert forall|i: int| 0 <= i < ps.len() implies #[trigger] cache_entries(cache_text(ps))[i] == ps[i] by {
        assert(cacheable(ps[i]));
        lemma_cache_line_shape(ps[i]);
        assert(ls[i] == cache_line(ps[i]));
    }
    assert(cache_entries(cache_text(ps)) =~= ps);
}

} // verus!
