//! Counting user-perceived characters (extended grapheme clusters).
use vstd::prelude::*;
use vstd::string::*;

verus! {

/// The number of extended grapheme clusters in the characters `s`.
pub uninterp spec fn grapheme_count(s: Seq<char>) -> nat;

/// Relies on `UnicodeSegmentation::graphemes(s, true)` of unicode-segmentation: it
/// splits `s` into its extended grapheme clusters, which depend on the characters of
/// `s` alone, and each cluster it yields is a non-empty slice of `s`.
#[verifier::external_body]
pub(crate) fn count_clusters(s: &str) -> (r: usize)
    ensures
        r as nat == grapheme_count(s@),
        r <= s.spec_bytes().len(),
{
    unicode_segmentation::UnicodeSegmentation::graphemes(s, true).count()
}

} // verus!
