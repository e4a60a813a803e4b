//! Character-level string helpers with their models over `Seq<char>`.
use vstd::prelude::*;

verus! {

/// Appends one character to a string, through `String::push`.
///
/// Trusted: `String::push` appends the character at the end of the string.
#[verifier::external_body]
pub(crate) fn push_char(s: &mut String, c: char)
    ensures
        final(s)@ == old(s)@.push(c),
{
    s.push(c);
}

/// The characters of `s`, in order.
pub fn chars_of(s: &str) -> (res: Vec<char>)
    ensures
        res@ == s@,
{
    let mut res: Vec<char> = Vec::new();
    for c in it: s.chars()
        invariant
            res@ == it.seq().take(it.index() as int),
    {
        res.push(c);
    }
    res
}

/// The string made of the characters `cs[lo..hi]`.
pub fn string_of(cs: &[char], lo: usize, hi: usize) -> (res: String)
    requires
        lo <= hi <= cs@.len(),
    ensures
        res@ == cs@.subrange(lo as int, hi as int),
{
    let mut res = String::new();
    let mut i: usize = lo;
    while i < hi
        invariant
            hi <= cs@.len(),
            lo <= i <= hi,
            res@ == cs@.subrange(lo as int, i as int),
        decreases hi - i,
    {
        push_char(&mut res, cs[i]);
        assert(cs@.subrange(lo as int, i + 1) == cs@.subrange(lo as int, i as int).push(cs@[i as int]));
        i += 1;
    }
    res
}


/// `n` occurs in `h` starting at position `i`.
pub open spec fn occurs_at(h: Seq<char>, n: Seq<char>, i: int) -> bool {
    0 <= i && i + n.len() <= h.len() && h.subrange(i, i + n.len()) == n
}

/// The first position at or after `from` where `n` occurs in `h`.
pub open spec fn find_from(h: Seq<char>, n: Seq<char>, from: int) -> Option<int>
    decreases h.len() - from,
{
    if from < 0 || from + n.len() > h.len() {
        None
    } else if occurs_at(h, n, from) {
        Some(from)
    } else {
        proof {
            if from == h.len() {
                assert(h.subrange(from, from) =~= n);
            }
        }
        find_from(h, n, from + 1)
    }
}

/// The first position where `n` occurs in `h` (an empty `n` occurs at 0).
pub open spec fn find(h: Seq<char>, n: Seq<char>) -> Option<int> {
    find_from(h, n, 0)
}

/// What `find_from` returns: the least occurrence at or after `from`, or none.
pub proof fn lemma_find_from(h: Seq<char>, n: Seq<char>, from: int)
    requires
        0 <= from,
    ensures
        match find_from(h, n, from) {
            Some(i) => {
                &&& from <= i
                &&& occurs_at(h, n, i)
                &&& forall|j: int| from <= j < i ==> !occurs_at(h, n, j)
            },
            None => forall|j: int| from <= j ==> !occurs_at(h, n, j),
        },
    decreases h.len() - from,
{
    if from + n.len() > h.len() {
    } else if occurs_at(h, n, from) {
    } else {
        if from == h.len() {
            assert(h.subrange(from, from) =~= n);
        }
        lemma_find_from(h, n, from + 1);
    }
}

/// Whether `n` occurs in `h` at position `i`.
pub fn matches_at(h: &[char], n: &[char], i: usize) -> (b: bool)
    requires
        i + n@.len() <= h@.len(),
    ensures
        b == occurs_at(h@, n@, i as int),
{
    let m = n.len();
    let hl = h.len();
    let mut k: usize = 0;
    while k < m
        invariant
            m == n@.len(),
            hl == h@.len(),
            i + m <= h@.len(),
            k <= m,
            forall|j: int| 0 <= j < k ==> h@[i + j] == n@[j],
        decreases m - k,
    {
        if h[i + k] != n[k] {
            assert(h@.subrange(i as int, i + m)[k as int] != n@[k as int]);
            return false;
        }
        k += 1;
    }
    assert(h@.subrange(i as int, i + m) =~= n@);
    true
}

/// The first position at or after `from` where `n` occurs in `h`.
pub fn find_chars(h: &[char], n: &[char], from: usize) -> (r: Option<usize>)
    ensures
        match r {
            Some(i) => find_from(h@, n@, from as int) == Some(i as int),
            None => find_from(h@, n@, from as int) is None,
        },
{
    if n.len() > h.len() {
        return None;
    }
    let last = h.len() - n.len();
    let mut i = from;
    while i <= last
        invariant
            last + n@.len() == h@.len(),
            from <= i,
            find_from(h@, n@, from as int) == find_from(h@, n@, i as int),
        decreases last + 1 - i,
    {
        if matches_at(h, n, i) {
            return Some(i);
        }
        if i == last {
            assert(find_from(h@, n@, i as int) == find_from(h@, n@, i + 1));
            assert(find_from(h@, n@, i + 1) is None);
            return None;
        }
        i += 1;
    }
    None
}

/// The pieces of `h[start..]` between the occurrences of `sep`, as `str::split` gives them.
pub open spec fn split_from(h: Seq<char>, sep: Seq<char>, start: int) -> Seq<Seq<char>>
    decreases h.len() - start,
{
    if start < 0 || start > h.len() || sep.len() == 0 {
        seq![]
    } else {
        match find_from(h, sep, start) {
            Some(i) => {
                proof {
                    lemma_find_from(h, sep, start);
                }
                seq![h.subrange(start, i)] + split_from(h, sep, i + sep.len())
            },
            None => seq![h.subrange(start, h.len() as int)],
        }
    }
}

/// The pieces of `h` between the occurrences of a non-empty `sep`.
pub open spec fn split_spec(h: Seq<char>, sep: Seq<char>) -> Seq<Seq<char>> {
    split_from(h, sep, 0)
}

/// The pieces of `h` between the occurrences of `sep`, as `str::split` gives them.
pub fn split_chars(h: &[char], sep: &[char]) -> (res: Vec<String>)
    requires
        sep@.len() > 0,
    ensures
        res.deep_view() == split_spec(h@, sep@),
        res@.len() >= 1,
{
    let mut res: Vec<String> = Vec::new();
    let mut start: usize = 0;
    let hl = h.len();
    loop
        invariant
            hl == h@.len(),
            sep@.len() > 0,
            start <= h@.len(),
            res.deep_view() + split_from(h@, sep@, start as int) == split_spec(h@, sep@),
        decreases h@.len() - start,
    {
        match find_chars(h, sep, start) {
            Some(i) => {
                proof {
                    lemma_find_from(h@, sep@, start as int);
                }
                let piece = string_of(h, start, i);
                let ghost before = res.deep_view();
                res.push(piece);
                assert(res.deep_view() =~= before.push(piece@));
                start = i + sep.len();
            },
            None => {
                let piece = string_of(h, start, h.len());
                let ghost before = res.deep_view();
                res.push(piece);
                assert(res.deep_view() =~= before.push(piece@));
                return res;
            },
        }
    }
}

/// The lines of `t[start..]` as `BufRead::read_line` returns them one by one:
/// each up to and including its `'\n'`, the last one possibly without.
pub open spec fn lines_from(t: Seq<char>, start: int) -> Seq<Seq<char>>
    decreases t.len() - start,
{
    if start < 0 || start >= t.len() {
        seq![]
    } else {
        match find_from(t, seq!['\n'], start) {
            Some(i) => {
                proof {
                    lemma_find_from(t, seq!['\n'], start);
                }
                seq![t.subrange(start, i + 1)] + lines_from(t, i + 1)
            },
            None => seq![t.subrange(start, t.len() as int)],
        }
    }
}

/// The lines of `t`, each with its terminating `'\n'` where it has one.
pub open spec fn lines_spec(t: Seq<char>) -> Seq<Seq<char>> {
    lines_from(t, 0)
}

/// Cuts `t` into lines as successive calls of `BufRead::read_line` would.
pub fn read_lines(t: &[char]) -> (res: Vec<String>)
    ensures
        res.deep_view() == lines_spec(t@),
{
    let mut res: Vec<String> = Vec::new();
    let mut start: usize = 0;
    let tl = t.len();
    let nl: Vec<char> = vec!['\n'];
    assert(nl@ == seq!['\n']);
    while start < tl
        invariant
            tl == t@.len(),
            nl@ == seq!['\n'],
            start <= tl,
            res.deep_view() + lines_from(t@, start as int) == lines_spec(t@),
        decreases tl - start,
    {
        let ghost before = res.deep_view();
        match find_chars(t, nl.as_slice(), start) {
            Some(i) => {
                proof {
                    lemma_find_from(t@, nl@, start as int);
                }
                let line = string_of(t, start, i + 1);
                res.push(line);
                assert(res.deep_view() =~= before.push(line@));
                start = i + 1;
            },
            None => {
                let line = string_of(t, start, tl);
                res.push(line);
                assert(res.deep_view() =~= before.push(line@));
                start = tl;
            },
        }
    }
    assert(res.deep_view() + lines_from(t@, start as int) =~= res.deep_view());
    res
}

/// The concatenation of `parts[lo..hi]`.
pub fn concat_range(parts: &Vec<String>, lo: usize, hi: usize) -> (res: String)
    requires
        lo <= hi <= parts@.len(),
    ensures
        res@ == parts.deep_view().subrange(lo as int, hi as int).flatten(),
{
    let ghost p = parts.deep_view();
    let mut res = String::new();
    let mut i = lo;
    while i < hi
        invariant
            p == parts.deep_view(),
            hi <= parts@.len(),
            lo <= i <= hi,
            res@ == p.subrange(lo as int, i as int).flatten(),
        decreases hi - i,
    {
        res.append(parts[i].as_str());
        proof {
            p.subrange(lo as int, i as int).lemma_flatten_push(p[i as int]);
            assert(p.subrange(lo as int, i + 1) =~= p.subrange(lo as int, i as int).push(p[i as int]));
        }
        i += 1;
    }
    res
}

/// `h` cut at the first occurrence of `sep`: what comes before it and what
/// comes after it, as `str::split_once` gives them.
pub open spec fn split_once_spec(h: Seq<char>, sep: Seq<char>) -> Option<(Seq<char>, Seq<char>)> {
    match find(h, sep) {
        Some(i) => Some((h.take(i), h.skip(i + sep.len()))),
        None => None,
    }
}

/// Cuts `h` at the first occurrence of `sep`.
pub fn split_once(h: &[char], sep: &[char]) -> (res: Option<(String, String)>)
    ensures
        match res {
            Some((a, b)) => split_once_spec(h@, sep@) == Some((a@, b@)),
            None => split_once_spec(h@, sep@) is None,
        },
{
    let hl = h.len();
    match find_chars(h, sep, 0) {
        None => None,
        Some(i) => {
            proof {
                lemma_find_from(h@, sep@, 0);
            }
            let before = string_of(h, 0, i);
            let after = string_of(h, i + sep.len(), hl);
            assert(before@ =~= h@.take(i as int));
            assert(after@ =~= h@.skip(i + sep@.len()));
            Some((before, after))
        },
    }
}

/// Whether `c` is a numeric character in the sense of `char::is_numeric`.
pub uninterp spec fn char_is_numeric(c: char) -> bool;

/// Whether `c` is numeric, through `char::is_numeric`.
///
/// Trusted. The result is named `char_is_numeric(c)`: std classifies `c` by the
/// Unicode general categories for numbers (Nd, Nl, No), a table that is not
/// written out here. Stated of it: the ASCII digits are numeric (category Nd)
/// and the ASCII letters are not (categories Lu and Ll).
#[verifier::external_body]
pub(crate) fn is_numeric(c: char) -> (b: bool)
    ensures
        b == char_is_numeric(c),
        '0' <= c <= '9' ==> b,
        ('a' <= c <= 'z') || ('A' <= c <= 'Z') ==> !b,
{
    c.is_numeric()
}

/// `s` without its numeric characters.
pub open spec fn without_numerals(s: Seq<char>) -> Seq<char>
    decreases s.len(),
{
    if s.len() == 0 {
        seq![]
    } else if char_is_numeric(s.last()) {
        without_numerals(s.drop_last())
    } else {
        without_numerals(s.drop_last()).push(s.last())
    }
}

/// The characters of `s` that are not numeric, in order.
pub fn remove_numerals(s: &str) -> (res: Vec<char>)
    ensures
        res@ == without_numerals(s@),
{
    let cs = chars_of(s);
    let mut res: Vec<char> = Vec::new();
    let n = cs.len();
    let mut i: usize = 0;
    while i < n
        invariant
            n == cs@.len(),
            cs@ == s@,
            i <= n,
            res@ == without_numerals(cs@.take(i as int)),
        decreases n - i,
    {
        assert(cs@.take(i + 1).drop_last() =~= cs@.take(i as int));
        assert(cs@.take(i + 1).last() == cs@[i as int]);
        if !is_numeric(cs[i]) {
            res.push(cs[i]);
        }
        i += 1;
    }
    assert(cs@.take(n as int) =~= cs@);
    res
}

/// Finding in `x + y` from inside `y` finds what finding in `y` finds, moved by `x`.
pub proof fn lemma_find_shift(x: Seq<char>, y: Seq<char>, n: Seq<char>, j: int)
    requires
        0 <= j,
    ensures
        find_from(x + y, n, x.len() + j) == match find_from(y, n, j) {
            Some(i) => Some(x.len() + i),
            None => None,
        },
    decreases y.len() - j,
{
    let t = x + y;
    if j + n.len() > y.len() {
    } else {
        assert(t.subrange(x.len() + j, x.len() + j + n.len()) =~= y.subrange(j, j + n.len()));
        if occurs_at(y, n, j) {
        } else {
            if j == y.len() {
                assert(y.subrange(j, j) =~= n);
            }
            lemma_find_shift(x, y, n, j + 1);
        }
    }
}

/// An occurrence with none before it, from `from` on, is the one that `find_from` finds.
pub proof fn lemma_find_first(h: Seq<char>, n: Seq<char>, from: int, i: int)
    requires
        0 <= from <= i,
        occurs_at(h, n, i),
        forall|j: int| from <= j < i ==> !occurs_at(h, n, j),
    ensures
        find_from(h, n, from) == Some(i),
    decreases i - from,
{
    if from < i {
        if from == h.len() {
            assert(h.subrange(from, from) =~= n);
        }
        lemma_find_first(h, n, from + 1, i);
    }
}

/// Where `n` never occurs from `from` on, `find_from` finds nothing.
pub proof fn lemma_find_none(h: Seq<char>, n: Seq<char>, from: int)
    requires
        0 <= from,
        forall|j: int| from <= j ==> !occurs_at(h, n, j),
    ensures
        find_from(h, n, from) is None,
{
    lemma_find_from(h, n, from);
}

/// Splitting `x + y` from inside `y` gives what splitting `y` gives.
pub proof fn lemma_split_shift(x: Seq<char>, y: Seq<char>, sep: Seq<char>, j: int)
    requires
        0 <= j <= y.len(),
        sep.len() > 0,
    ensures
        split_from(x + y, sep, x.len() + j) == split_from(y, sep, j),
    decreases y.len() - j,
{
    let t = x + y;
    lemma_find_shift(x, y, sep, j);
    match find_from(y, sep, j) {
        Some(i) => {
            lemma_find_from(y, sep, j);
            assert(t.subrange(x.len() + j, x.len() + i) =~= y.subrange(j, i));
            lemma_split_shift(x, y, sep, i + sep.len());
        },
        None => {
            assert(t.subrange(x.len() + j, t.len() as int) =~= y.subrange(j, y.len() as int));
        },
    }
}

/// Cutting `x + y` into lines from inside `y` gives the lines of `y`.
pub proof fn lemma_lines_shift(x: Seq<char>, y: Seq<char>, j: int)
    requires
        0 <= j <= y.len(),
    ensures
        lines_from(x + y, x.len() + j) == lines_from(y, j),
    decreases y.len() - j,
{
    let t = x + y;
    if j < y.len() {
        lemma_find_shift(x, y, seq!['\n'], j);
        match find_from(y, seq!['\n'], j) {
            Some(i) => {
                lemma_find_from(y, seq!['\n'], j);
                assert(t.subrange(x.len() + j, x.len() + i + 1) =~= y.subrange(j, i + 1));
                lemma_lines_shift(x, y, i + 1);
            },
            None => {
                assert(t.subrange(x.len() + j, t.len() as int) =~= y.subrange(j, y.len() as int));
            },
        }
    }
}

/// `n` occurs somewhere in `h`.
pub open spec fn contains_spec(h: Seq<char>, n: Seq<char>) -> bool {
    find(h, n) is Some
}

/// Whether `n` occurs in `h`, as `str::contains` tells.
pub fn contains_str(h: &str, n: &str) -> (b: bool)
    ensures
        b == contains_spec(h@, n@),
{
    let hc = chars_of(h);
    let nc = chars_of(n);
    find_chars(hc.as_slice(), nc.as_slice(), 0).is_some()
}

/// The part of `s` after the first occurrence of `p`, or all of `s` if `p`
/// does not occur: the last piece of `s.splitn(2, p)`.
pub open spec fn after_first(s: Seq<char>, p: Seq<char>) -> Seq<char> {
    match find(s, p) {
        Some(i) => s.skip(i + p.len()),
        None => s,
    }
}

/// The part of `s` before the first occurrence of `p`, or all of `s` if `p`
/// does not occur: the first piece of `s.splitn(2, p)`.
pub open spec fn before_first(s: Seq<char>, p: Seq<char>) -> Seq<char> {
    match find(s, p) {
        Some(i) => s.take(i),
        None => s,
    }
}

/// The text between the first `prefix` and the first `suffix` after it.
pub open spec fn between(prefix: Seq<char>, suffix: Seq<char>, s: Seq<char>) -> Seq<char> {
    before_first(after_first(s, prefix), suffix)
}

/// The text between the first `prefix` and the first `suffix` after it.
pub fn between_str(prefix: &str, suffix: &str, s: &str) -> (res: String)
    ensures
        res@ == between(prefix@, suffix@, s@),
{
    let sc = chars_of(s);
    let pc = chars_of(prefix);
    let qc = chars_of(suffix);
    let sl = sc.len();
    let after: Vec<char> = match find_chars(sc.as_slice(), pc.as_slice(), 0) {
        Some(i) => {
            proof {
                lemma_find_from(sc@, pc@, 0);
            }
            let mut v: Vec<char> = Vec::new();
            let mut k = i + pc.len();
            while k < sl
                invariant
                    sl == sc@.len(),
                    i + pc@.len() <= k <= sl,
                    v@ == sc@.subrange(i + pc@.len(), k as int),
                decreases sl - k,
            {
                v.push(sc[k]);
                assert(sc@.subrange(i + pc@.len(), k + 1) =~= sc@.subrange(i + pc@.len(), k as int).push(sc@[k as int]));
                k += 1;
            }
            assert(v@ =~= sc@.skip(i + pc@.len()));
            v
        },
        None => sc,
    };
    assert(after@ == after_first(s@, prefix@));
    let al = after.len();
    match find_chars(after.as_slice(), qc.as_slice(), 0) {
        Some(j) => {
            proof {
                lemma_find_from(after@, qc@, 0);
            }
            let r = string_of(after.as_slice(), 0, j);
            assert(r@ =~= after@.take(j as int));
            r
        },
        None => {
            let r = string_of(after.as_slice(), 0, al);
            assert(r@ =~= after@);
            r
        },
    }
}

} // verus!
