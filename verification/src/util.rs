//! Small string utilities shared by the dictionary parsers.
use vstd::prelude::*;
use crate::text::{chars_of, string_of};

verus! {

/// `s` without one trailing line feed, if it ends with one.
pub open spec fn without_newline(s: Seq<char>) -> Seq<char> {
    if s.len() > 0 && s.last() == '\n' {
        s.drop_last()
    } else {
        s
    }
}

/// Removes a single trailing `'\n'` from `inp`, if there is one.
pub fn strip_newline(inp: String) -> (res: String)
    ensures
        res@ == without_newline(inp@),
{
    let cs = chars_of(inp.as_str());
    let n = cs.len();
    if n > 0 && cs[n - 1] == '\n' {
        string_of(cs.as_slice(), 0, n - 1)
    } else {
        inp
    }
}

/// Stripping the line feed that ends a line read with `read_line` gives the
/// line back; a text without a final line feed is left as it is.
pub proof fn law_strip_newline_undoes_line_feed(s: Seq<char>)
    ensures
        without_newline(s.push('\n')) == s,
        (s.len() == 0 || s.last() != '\n') ==> without_newline(s) == s,
{
    assert(s.push('\n').drop_last() =~= s);
}

} // verus!
