//! The digit–sound table: which sound symbols stand for which number, and
//! how a pronunciation is spelled out as digits through it.
use std::collections::HashMap;
use vstd::prelude::*;
use vstd::std_specs::hash::{into_iter, spec_hash_map_iter};
use vstd::std_specs::iter::IteratorSpec;
use crate::numbers::{decimal, decimal_string, parse_i32, parse_i32_spec};
use crate::graphemes::{extended_graphemes, graphemes};
use crate::text::{chars_of, concat_range, lines_spec, read_lines};

verus! {

broadcast use vstd::std_specs::hash::group_hash_axioms;

/// The entries of a sound table in the order in which the table is walked.
pub open spec fn sound_walk(m: &HashMap<i32, Vec<String>>) -> Seq<(i32, Seq<Seq<char>>)> {
    into_iter(spec_hash_map_iter(m)).map_values(|p: (i32, Vec<String>)| (p.0, p.1.deep_view()))
}

/// The contents of a sound table: each number with its sound symbols.
pub open spec fn table_view(m: Map<i32, Vec<String>>) -> Map<i32, Seq<Seq<char>>> {
    m.map_values(|v: Vec<String>| v.deep_view())
}

/// The number of the first entry of `walk` whose symbols hold `sym`.
pub open spec fn first_number_with(walk: Seq<(i32, Seq<Seq<char>>)>, sym: Seq<char>) -> Option<i32>
    decreases walk.len(),
{
    if walk.len() == 0 {
        None
    } else {
        match first_number_with(walk.drop_last(), sym) {
            Some(k) => Some(k),
            None => if walk.last().1.contains(sym) {
                Some(walk.last().0)
            } else {
                None
            },
        }
    }
}

/// The digits that stand for `sym`: those of the first number whose symbols hold it, or none.
pub open spec fn digits_for(walk: Seq<(i32, Seq<Seq<char>>)>, sym: Seq<char>) -> Seq<char> {
    match first_number_with(walk, sym) {
        Some(k) => decimal(k as int),
        None => seq![],
    }
}

/// The digits of a whole pronunciation: those of each symbol, in order.
pub open spec fn number_of(walk: Seq<(i32, Seq<Seq<char>>)>, syms: Seq<Seq<char>>) -> Seq<char>
    decreases syms.len(),
{
    if syms.len() == 0 {
        seq![]
    } else {
        number_of(walk, syms.drop_last()) + digits_for(walk, syms.last())
    }
}

/// Whether `sym` is one of `v`.
fn holds_symbol(v: &Vec<String>, sym: &String) -> (b: bool)
    ensures
        b == v.deep_view().contains(sym@),
{
    let n = v.len();
    let mut i: usize = 0;
    while i < n
        invariant
            n == v@.len(),
            i <= n,
            forall|j: int| 0 <= j < i ==> v@[j]@ != sym@,
        decreases n - i,
    {
        if v[i] == *sym {
            assert(v.deep_view()[i as int] == sym@);
            return true;
        }
        i += 1;
    }
    assert(!v.deep_view().contains(sym@)) by {
        if v.deep_view().contains(sym@) {
            let j = choose|j: int| 0 <= j < v.deep_view().len() && v.deep_view()[j] == sym@;
            assert(v@[j]@ == sym@);
        }
    }
    false
}

/// The first number in the table walk whose symbols hold `sym`.
pub fn first_number(m: &HashMap<i32, Vec<String>>, sym: &String) -> (res: Option<i32>)
    ensures
        res == first_number_with(sound_walk(m), sym@),
{
    let ghost walk = sound_walk(m);
    let mut found: Option<i32> = None;
    for entry in it: m.iter()
        invariant
            walk == it.seq().unref().map_values(|p: (i32, Vec<String>)| (p.0, p.1.deep_view())),
            found == first_number_with(walk.take(it.index()), sym@),
    {
        let (k, v) = entry;
        let ghost i = it.index();
        assert(walk.take(i + 1).drop_last() =~= walk.take(i));
        if found.is_none() && holds_symbol(v, sym) {
            found = Some(*k);
        }
    }
    assert(walk.take(walk.len() as int) =~= walk);
    found
}

/// The digits that the table gives for one sound symbol.
pub fn sound_digits(m: &HashMap<i32, Vec<String>>, sym: &String) -> (res: String)
    ensures
        res@ == digits_for(sound_walk(m), sym@),
{
    match first_number(m, sym) {
        Some(k) => decimal_string(k),
        None => String::new(),
    }
}

/// `walk` lists every entry of `table` exactly once.
pub open spec fn walk_lists(walk: Seq<(i32, Seq<Seq<char>>)>, table: Map<i32, Seq<Seq<char>>>) -> bool {
    &&& forall|i: int|
        0 <= i < walk.len() ==> table.contains_key(#[trigger] walk[i].0) && table[walk[i].0]
            == walk[i].1
    &&& forall|k: i32| table.contains_key(k) ==> exists|i: int| 0 <= i < walk.len() && #[trigger] walk[i].0 == k
    &&& forall|i: int, j: int| 0 <= i < j < walk.len() ==> #[trigger] walk[i].0 != #[trigger] walk[j].0
}

/// Walking a sound table visits each of its entries exactly once.
pub(crate) fn check_walk(m: &HashMap<i32, Vec<String>>)
    ensures
        walk_lists(sound_walk(m), table_view(m@)),
{
    let iter = m.iter();
    proof {
        let v = iter.remaining();
        let walk = sound_walk(m);
        assert(into_iter(iter) == v.unref());
        assert(walk.len() == v.len());
        assert forall|i: int| 0 <= i < walk.len() implies table_view(m@).contains_key(
            #[trigger] walk[i].0,
        ) && table_view(m@)[walk[i].0] == walk[i].1 by {
            assert(m@.contains_key(*v[i].0) && m@[*v[i].0] == *v[i].1);
        }
        assert forall|k: i32| table_view(m@).contains_key(k) implies exists|i: int|
            0 <= i < walk.len() && #[trigger] walk[i].0 == k by {
            assert(v.contains((&k, &m@[k])));
            let i = choose|i: int| 0 <= i < v.len() && v[i] == (&k, &m@[k]);
            assert(walk[i].0 == k);
        }
        assert forall|i: int, j: int| 0 <= i < j < walk.len() implies #[trigger] walk[i].0
            != #[trigger] walk[j].0 by {
            if walk[i].0 == walk[j].0 {
                assert(m@[*v[i].0] == *v[i].1);
                assert(m@[*v[j].0] == *v[j].1);
                assert(v[i] == v[j]);
            }
        }
    }
}

/// A symbol that exactly one number holds is spelled with that number's digits,
/// however the table is walked.
pub proof fn law_digits_of_unique_symbol(
    walk: Seq<(i32, Seq<Seq<char>>)>,
    table: Map<i32, Seq<Seq<char>>>,
    sym: Seq<char>,
    k: i32,
)
    requires
        walk_lists(walk, table),
        table.contains_key(k),
        table[k].contains(sym),
        forall|k2: i32| table.contains_key(k2) && table[k2].contains(sym) ==> k2 == k,
    ensures
        digits_for(walk, sym) == decimal(k as int),
{
    lemma_first_number_with_unique(walk, table, sym, k);
}

/// The first entry found holding `sym` is an entry of the walk that holds
/// it, and none is found exactly when no entry holds it.
proof fn lemma_first_number_with_walk(walk: Seq<(i32, Seq<Seq<char>>)>, sym: Seq<char>)
    ensures
        first_number_with(walk, sym) is None <==> forall|i: int|
            0 <= i < walk.len() ==> !(#[trigger] walk[i].1).contains(sym),
        first_number_with(walk, sym) matches Some(k) ==> exists|i: int|
            0 <= i < walk.len() && #[trigger] walk[i].0 == k && walk[i].1.contains(sym),
    decreases walk.len(),
{
    if walk.len() > 0 {
        let w = walk.drop_last();
        let n = walk.len() - 1;
        lemma_first_number_with_walk(w, sym);
        assert(walk.last() == walk[n]);
        assert forall|i: int| 0 <= i < w.len() implies #[trigger] w[i] == walk[i] by {}
        if first_number_with(w, sym) is Some {
            let k = first_number_with(w, sym).unwrap();
            let i = choose|i: int| 0 <= i < w.len() && #[trigger] w[i].0 == k && w[i].1.contains(sym);
            assert(walk[i].0 == k);
            assert(walk[i].1.contains(sym));
        } else if walk[n].1.contains(sym) {
            assert(walk[n].0 == first_number_with(walk, sym).unwrap());
        } else {
            assert forall|i: int| 0 <= i < walk.len() implies !(#[trigger] walk[i].1).contains(sym) by {
                if i < n {
                    assert(!w[i].1.contains(sym));
                }
            }
        }
    }
}

/// Through a walk of a table, the number found for `sym` is a number of the
/// table that holds it, and none is found exactly when no number holds it.
pub proof fn lemma_first_number_in_table(
    walk: Seq<(i32, Seq<Seq<char>>)>,
    table: Map<i32, Seq<Seq<char>>>,
    sym: Seq<char>,
)
    requires
        walk_lists(walk, table),
    ensures
        first_number_with(walk, sym) is None <==> forall|k: i32|
            #[trigger] table.contains_key(k) ==> !table[k].contains(sym),
        first_number_with(walk, sym) matches Some(k) ==> table.contains_key(k) && table[k].contains(sym),
{
    lemma_first_number_with_walk(walk, sym);
    if first_number_with(walk, sym) is Some {
        let k = first_number_with(walk, sym).unwrap();
        let i = choose|i: int| 0 <= i < walk.len() && #[trigger] walk[i].0 == k && walk[i].1.contains(sym);
        assert(table.contains_key(walk[i].0));
    } else {
        assert forall|k: i32| #[trigger] table.contains_key(k) implies !table[k].contains(sym) by {
            let i = choose|i: int| 0 <= i < walk.len() && #[trigger] walk[i].0 == k;
            assert(!walk[i].1.contains(sym));
        }
    }
}

/// A sound symbol spells the digits of a number of the table that holds it,
/// of the only such number where one number alone holds it, and nothing
/// where no number holds it.
pub proof fn law_symbol_spells_its_number(
    walk: Seq<(i32, Seq<Seq<char>>)>,
    table: Map<i32, Seq<Seq<char>>>,
    sym: Seq<char>,
)
    requires
        walk_lists(walk, table),
    ensures
        (forall|k: i32| #[trigger] table.contains_key(k) ==> !table[k].contains(sym)) ==> number_of(
            walk,
            seq![sym],
        ) == Seq::<char>::empty(),
        (exists|k: i32| #[trigger] table.contains_key(k) && table[k].contains(sym)) ==> exists|k: i32|
            #[trigger] table.contains_key(k) && table[k].contains(sym) && number_of(walk, seq![sym])
                == decimal(k as int),
        forall|k: i32|
            #![trigger table.contains_key(k)]
            table.contains_key(k) && table[k].contains(sym) && (forall|k2: i32|
                #[trigger] table.contains_key(k2) && table[k2].contains(sym) ==> k2 == k) ==> number_of(
                walk,
                seq![sym],
            ) == decimal(k as int),
{
    lemma_first_number_in_table(walk, table, sym);
    assert(seq![sym].drop_last() =~= Seq::<Seq<char>>::empty());
    assert(seq![sym].last() == sym);
    assert(number_of(walk, Seq::<Seq<char>>::empty()) =~= Seq::<char>::empty());
    assert(number_of(walk, seq![sym]) == number_of(walk, seq![sym].drop_last()) + digits_for(walk, seq![sym].last()));
    assert(number_of(walk, seq![sym]) =~= digits_for(walk, sym));
    if first_number_with(walk, sym) is Some {
        let k = first_number_with(walk, sym).unwrap();
        assert(table.contains_key(k) && table[k].contains(sym));
    }
}

/// The digits that a table gives a sound symbol: those of a number that holds
/// it, or none.
pub open spec fn table_digits(table: Map<i32, Seq<Seq<char>>>, sym: Seq<char>) -> Seq<char> {
    if exists|k: i32| #[trigger] table.contains_key(k) && table[k].contains(sym) {
        decimal((choose|k: i32| #[trigger] table.contains_key(k) && table[k].contains(sym)) as int)
    } else {
        seq![]
    }
}

/// Where no two numbers of the table hold the same symbol of a
/// pronunciation, its number is the digits of each of its symbols in turn:
/// those of the number that holds it, or none.
pub proof fn law_number_spells_each_symbol(
    walk: Seq<(i32, Seq<Seq<char>>)>,
    table: Map<i32, Seq<Seq<char>>>,
    syms: Seq<Seq<char>>,
)
    requires
        walk_lists(walk, table),
        forall|i: int, k1: i32, k2: i32|
            0 <= i < syms.len() && table.contains_key(k1) && table.contains_key(k2) && #[trigger] table[k1].contains(
                syms[i],
            ) && #[trigger] table[k2].contains(syms[i]) ==> k1 == k2,
    ensures
        number_of(walk, syms) == syms.map_values(|s: Seq<char>| table_digits(table, s)).flatten(),
    decreases syms.len(),
{
    let f = |s: Seq<char>| table_digits(table, s);
    if syms.len() == 0 {
        assert(syms.map_values(f) =~= Seq::<Seq<char>>::empty());
    } else {
        let d = syms.drop_last();
        let x = syms.last();
        assert forall|i: int, k1: i32, k2: i32|
            0 <= i < d.len() && table.contains_key(k1) && table.contains_key(k2) && #[trigger] table[k1].contains(
                d[i],
            ) && #[trigger] table[k2].contains(d[i]) implies k1 == k2 by {
            assert(d[i] == syms[i]);
        }
        law_number_spells_each_symbol(walk, table, d);
        assert(syms.map_values(f) =~= d.map_values(f).push(f(x)));
        d.map_values(f).lemma_flatten_push(f(x));
        lemma_first_number_in_table(walk, table, x);
        assert(x == syms[syms.len() - 1]);
        if exists|k: i32| #[trigger] table.contains_key(k) && table[k].contains(x) {
            let c = choose|k: i32| #[trigger] table.contains_key(k) && table[k].contains(x);
            let k = first_number_with(walk, x).unwrap();
            assert(table[c].contains(syms[syms.len() - 1]));
            assert(table[k].contains(syms[syms.len() - 1]));
            assert(k == c);
        }
    }
}

proof fn lemma_first_number_with_unique(
    walk: Seq<(i32, Seq<Seq<char>>)>,
    table: Map<i32, Seq<Seq<char>>>,
    sym: Seq<char>,
    k: i32,
)
    requires
        forall|i: int|
            0 <= i < walk.len() ==> table.contains_key(#[trigger] walk[i].0) && table[walk[i].0]
                == walk[i].1,
        table.contains_key(k),
        table[k].contains(sym),
        forall|k2: i32| table.contains_key(k2) && table[k2].contains(sym) ==> k2 == k,
    ensures
        first_number_with(walk, sym) == (if exists|i: int| 0 <= i < walk.len() && walk[i].0 == k {
            Some(k)
        } else {
            None::<i32>
        }),
    decreases walk.len(),
{
    if walk.len() > 0 {
        let w = walk.drop_last();
        assert forall|i: int| 0 <= i < w.len() implies table.contains_key(#[trigger] w[i].0)
            && table[w[i].0] == w[i].1 by {
            assert(w[i] == walk[i]);
        }
        lemma_first_number_with_unique(w, table, sym, k);
        let last = walk.len() - 1;
        assert(table.contains_key(walk[last].0));
        if exists|i: int| 0 <= i < w.len() && w[i].0 == k {
            let i = choose|i: int| 0 <= i < w.len() && w[i].0 == k;
            assert(walk[i].0 == k);
        } else if walk[last].0 == k {
        } else {
            assert(!(exists|i: int| 0 <= i < walk.len() && walk[i].0 == k)) by {
                if exists|i: int| 0 <= i < walk.len() && walk[i].0 == k {
                    let i = choose|i: int| 0 <= i < walk.len() && walk[i].0 == k;
                    if i < last {
                        assert(w[i].0 == k);
                    }
                }
            }
        }
    }
}

/// How a line of a sound table names its number.
#[derive(Clone, Copy, PartialEq, Eq, Structural, Debug)]
pub enum TableLayout {
    /// The number is everything before the first `"="` cluster: `12=s,z`.
    Separated,
    /// The number is the first cluster, and the second one is skipped: `1=s,z`.
    Leading,
}

/// The first index at or after `from` whose cluster is `g`.
pub open spec fn cluster_index(gs: Seq<Seq<char>>, g: Seq<char>, from: int) -> Option<int>
    decreases gs.len() - from,
{
    if from < 0 || from >= gs.len() {
        None
    } else if gs[from] == g {
        Some(from)
    } else {
        cluster_index(gs, g, from + 1)
    }
}

/// The sound symbols of `gs[i..]`: runs of clusters ended by a `","` or a
/// `"\n"` cluster, with `acc` the clusters of the run under way; empty runs
/// give nothing, and a run that no separator ends is dropped.
pub open spec fn values_from(gs: Seq<Seq<char>>, i: int, acc: Seq<Seq<char>>) -> Seq<Seq<char>>
    decreases gs.len() - i,
{
    if i < 0 || i >= gs.len() {
        seq![]
    } else if gs[i] == seq![','] || gs[i] == seq!['\n'] {
        if acc.len() > 0 {
            seq![acc.flatten()] + values_from(gs, i + 1, seq![])
        } else {
            values_from(gs, i + 1, seq![])
        }
    } else {
        values_from(gs, i + 1, acc.push(gs[i]))
    }
}

/// The number and the sound symbols of one line, given as its clusters; `None`
/// where the line has no number in the place the layout gives it.
pub open spec fn table_line(gs: Seq<Seq<char>>, layout: TableLayout) -> Option<(i32, Seq<Seq<char>>)> {
    match layout {
        TableLayout::Separated => match cluster_index(gs, seq!['='], 0) {
            None => None,
            Some(e) => match parse_i32_spec(gs.take(e).flatten()) {
                None => None,
                Some(k) => Some((k, values_from(gs, e + 1, seq![]))),
            },
        },
        TableLayout::Leading => if gs.len() == 0 {
            None
        } else {
            match parse_i32_spec(gs[0]) {
                None => None,
                Some(k) => Some((k, values_from(gs, 2, seq![]))),
            }
        },
    }
}

/// `table` with the symbols `vals` added at the end of those of `k`; a number
/// enters the table with its first symbol.
pub open spec fn add_values(
    table: Map<i32, Seq<Seq<char>>>,
    k: i32,
    vals: Seq<Seq<char>>,
) -> Map<i32, Seq<Seq<char>>> {
    if vals.len() == 0 {
        table
    } else if table.contains_key(k) {
        table.insert(k, table[k] + vals)
    } else {
        table.insert(k, vals)
    }
}

/// The table that the lines `lines[i..]` make out of `table`; `None` if one of them has no number.
pub open spec fn table_from_lines(
    lines: Seq<Seq<char>>,
    i: int,
    table: Map<i32, Seq<Seq<char>>>,
    layout: TableLayout,
) -> Option<Map<i32, Seq<Seq<char>>>>
    decreases lines.len() - i,
{
    if i < 0 || i >= lines.len() {
        Some(table)
    } else {
        match table_line(extended_graphemes(lines[i]), layout) {
            None => None,
            Some((k, vals)) => table_from_lines(lines, i + 1, add_values(table, k, vals), layout),
        }
    }
}

/// The sound table that the text of a table file describes.
pub open spec fn sound_table_of(text: Seq<char>, layout: TableLayout) -> Option<Map<i32, Seq<Seq<char>>>> {
    table_from_lines(lines_spec(text), 0, Map::empty(), layout)
}

/// The first index at or after `from` whose cluster is `"="`.
fn find_equals(gs: &Vec<String>, from: usize) -> (r: Option<usize>)
    ensures
        match r {
            Some(e) => e < gs@.len() && cluster_index(gs.deep_view(), seq!['='], from as int) == Some(
                e as int,
            ),
            None => cluster_index(gs.deep_view(), seq!['='], from as int) is None,
        },
{
    let eq = String::from_str("=");
    proof {
        reveal_strlit("=");
    }
    assert(eq@ =~= seq!['=']);
    let n = gs.len();
    let mut i = from;
    while i < n
        invariant
            n == gs@.len(),
            from <= i,
            eq@ == seq!['='],
            cluster_index(gs.deep_view(), seq!['='], from as int) == cluster_index(
                gs.deep_view(),
                seq!['='],
                i as int,
            ),
        decreases n - i,
    {
        if gs[i] == eq {
            return Some(i);
        }
        i += 1;
    }
    None
}

/// The sound symbols of the clusters `gs[from..]`.
fn line_values(gs: &Vec<String>, from: usize) -> (res: Vec<String>)
    ensures
        res.deep_view() == values_from(gs.deep_view(), from as int, seq![]),
{
    let ghost g = gs.deep_view();
    let n = gs.len();
    let mut res: Vec<String> = Vec::new();
    let mut run = String::new();
    let mut run_nonempty = false;
    let ghost mut acc: Seq<Seq<char>> = seq![];
    if from >= n {
        return res;
    }
    let comma = String::from_str(",");
    let newline = String::from_str("\n");
    proof {
        reveal_strlit(",");
        reveal_strlit("\n");
    }
    assert(comma@ =~= seq![',']);
    assert(newline@ =~= seq!['\n']);
    let mut i = from;
    while i < n
        invariant
            n == gs@.len(),
            g == gs.deep_view(),
            comma@ == seq![','],
            newline@ == seq!['\n'],
            from <= i <= n,
            run@ == acc.flatten(),
            run_nonempty == (acc.len() > 0),
            res.deep_view() + values_from(g, i as int, acc) == values_from(g, from as int, seq![]),
        decreases n - i,
    {
        let c = &gs[i];
        assert(g[i as int] == c@);
        let ghost before = res.deep_view();
        let ghost acc0 = acc;
        if *c == comma || *c == newline {
            assert(values_from(g, i as int, acc0) == (if acc0.len() > 0 {
                seq![acc0.flatten()]
            } else {
                seq![]
            }) + values_from(g, i + 1, seq![]));
            if run_nonempty {
                res.push(run);
                assert(res.deep_view() =~= before.push(acc0.flatten()));
                run = String::new();
                run_nonempty = false;
                assert(before + (seq![acc0.flatten()] + values_from(g, i + 1, seq![])) =~= res.deep_view()
                    + values_from(g, i + 1, seq![]));
            } else {
                assert(before + (seq![] + values_from(g, i + 1, seq![])) =~= res.deep_view()
                    + values_from(g, i + 1, seq![]));
            }
            proof {
                acc = seq![];
            }
        } else {
            assert(values_from(g, i as int, acc0) == values_from(g, i + 1, acc0.push(g[i as int])));
            run.append(c.as_str());
            proof {
                acc0.lemma_flatten_push(g[i as int]);
                acc = acc0.push(g[i as int]);
            }
            run_nonempty = true;
        }
        i += 1;
    }
    assert(res.deep_view() + values_from(g, n as int, acc) =~= res.deep_view());
    res
}

/// The number and the sound symbols of one line of a table file.
fn read_table_line(line: &String, layout: TableLayout) -> (res: Option<(i32, Vec<String>)>)
    ensures
        match res {
            Some((k, vals)) => table_line(extended_graphemes(line@), layout) == Some(
                (k, vals.deep_view()),
            ),
            None => table_line(extended_graphemes(line@), layout) is None,
        },
{
    let gs = graphemes(line.as_str());
    let ghost g = gs.deep_view();
    let gl = gs.len();
    match layout {
        TableLayout::Separated => match find_equals(&gs, 0) {
            None => None,
            Some(e) => {
                let number_text = concat_range(&gs, 0, e);
                assert(g.subrange(0, e as int) =~= g.take(e as int));
                let cs = chars_of(number_text.as_str());
                match parse_i32(cs.as_slice()) {
                    None => None,
                    Some(k) => Some((k, line_values(&gs, e + 1))),
                }
            },
        },
        TableLayout::Leading => {
            if gs.len() == 0 {
                None
            } else {
                let cs = chars_of(gs[0].as_str());
                assert(cs@ == g[0]);
                match parse_i32(cs.as_slice()) {
                    None => None,
                    Some(k) => Some((k, line_values(&gs, 2))),
                }
            }
        },
    }
}

/// Adds the symbols `vals` at the end of those of `k`.
fn add_to_table(table: &mut HashMap<i32, Vec<String>>, k: i32, vals: Vec<String>)
    ensures
        table_view(final(table)@) == add_values(table_view(old(table)@), k, vals.deep_view()),
{
    if vals.len() == 0 {
        assert(table_view(table@) =~= add_values(table_view(old(table)@), k, vals.deep_view()));
        return;
    }
    let mut vals = vals;
    let ghost vs = vals.deep_view();
    match table.remove(&k) {
        Some(mut v) => {
            let ghost v0 = v.deep_view();
            v.append(&mut vals);
            assert(v.deep_view() =~= v0 + vs);
            table.insert(k, v);
        },
        None => {
            table.insert(k, vals);
        },
    }
    assert(table_view(table@) =~= add_values(table_view(old(table)@), k, vs));
}

/// Reads a sound table from the text of its file, line by line; `None` if a
/// line has no number where the layout puts it.
pub fn read_sound_table(text: &str, layout: TableLayout) -> (res: Option<HashMap<i32, Vec<String>>>)
    ensures
        match res {
            Some(m) => sound_table_of(text@, layout) == Some(table_view(m@)),
            None => sound_table_of(text@, layout) is None,
        },
{
    let cs = chars_of(text);
    let lines = read_lines(cs.as_slice());
    let ghost ls = lines.deep_view();
    let mut table: HashMap<i32, Vec<String>> = HashMap::new();
    assert(table_view(table@) =~= Map::empty());
    let n = lines.len();
    let mut i: usize = 0;
    while i < n
        invariant
            n == lines@.len(),
            ls == lines.deep_view(),
            ls == lines_spec(text@),
            i <= n,
            sound_table_of(text@, layout) == table_from_lines(ls, i as int, table_view(table@), layout),
        decreases n - i,
    {
        assert(ls[i as int] == lines@[i as int]@);
        match read_table_line(&lines[i], layout) {
            None => {
                return None;
            },
            Some((k, vals)) => {
                add_to_table(&mut table, k, vals);
            },
        }
        i += 1;
    }
    Some(table)
}

/// Every number in `table` has at least one symbol.
pub open spec fn numbers_have_symbols(table: Map<i32, Seq<Seq<char>>>) -> bool {
    forall|k: i32| table.contains_key(k) ==> #[trigger] table[k].len() > 0
}

proof fn lemma_table_from_lines_keeps_symbols(
    lines: Seq<Seq<char>>,
    i: int,
    table: Map<i32, Seq<Seq<char>>>,
    layout: TableLayout,
)
    requires
        numbers_have_symbols(table),
    ensures
        table_from_lines(lines, i, table, layout) matches Some(t) ==> numbers_have_symbols(t),
    decreases lines.len() - i,
{
    if 0 <= i < lines.len() {
        match table_line(extended_graphemes(lines[i]), layout) {
            None => {},
            Some((k, vals)) => {
                let next = add_values(table, k, vals);
                assert forall|k2: i32| next.contains_key(k2) implies #[trigger] next[k2].len() > 0 by {
                    if vals.len() > 0 && k2 == k && table.contains_key(k) {
                        assert(next[k2] == table[k] + vals);
                    }
                }
                lemma_table_from_lines_keeps_symbols(lines, i + 1, next, layout);
            },
        }
    }
}

/// A number enters a sound table only with a symbol: no number of a table
/// read from a file is without symbols.
pub proof fn law_numbers_have_symbols(text: Seq<char>, layout: TableLayout)
    ensures
        sound_table_of(text, layout) matches Some(t) ==> numbers_have_symbols(t),
{
    lemma_table_from_lines_keeps_symbols(lines_spec(text), 0, Map::empty(), layout);
}

/// The number of a pronunciation made of two parts is the number of the
/// first part followed by that of the second.
pub proof fn law_number_of_concatenation(
    walk: Seq<(i32, Seq<Seq<char>>)>,
    a: Seq<Seq<char>>,
    b: Seq<Seq<char>>,
)
    ensures
        number_of(walk, a + b) == number_of(walk, a) + number_of(walk, b),
    decreases b.len(),
{
    if b.len() == 0 {
        assert(a + b =~= a);
        assert(number_of(walk, b) =~= seq![]);
        assert(number_of(walk, a) + seq![] =~= number_of(walk, a));
    } else {
        law_number_of_concatenation(walk, a, b.drop_last());
        assert((a + b).drop_last() =~= a + b.drop_last());
        assert((a + b).last() == b.last());
        assert(number_of(walk, a) + (number_of(walk, b.drop_last()) + digits_for(walk, b.last()))
            =~= number_of(walk, a) + number_of(walk, b.drop_last()) + digits_for(walk, b.last()));
    }
}

} // verus!
