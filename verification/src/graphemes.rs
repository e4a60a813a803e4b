//! Grapheme clusters, through the `unicode-segmentation` crate.
use unicode_segmentation::UnicodeSegmentation;
use vstd::prelude::*;

verus! {

/// The extended grapheme clusters of a text, as Unicode Standard Annex #29 cuts it.
pub uninterp spec fn extended_graphemes(s: Seq<char>) -> Seq<Seq<char>>;

/// The extended grapheme clusters of `s`, through `UnicodeSegmentation::graphemes(s, true)`.
///
/// Trusted. The result is named `extended_graphemes(s@)`: where the clusters
/// break is the Unicode segmentation algorithm, which is not stated here.
/// What is stated is what the crate's iterator shows plainly: it hands out the
/// slices of `s` between successive boundaries, from the start to the end, so
/// the clusters are non-empty and together spell `s`.
#[verifier::external_body]
pub(crate) fn graphemes(s: &str) -> (res: Vec<String>)
    ensures
        res.deep_view() == extended_graphemes(s@),
        res.deep_view().flatten() == s@,
        forall|i: int| 0 <= i < res@.len() ==> #[trigger] res@[i]@.len() > 0,
{
    s.graphemes(true).map(|g| g.to_string()).collect()
}

} // verus!
