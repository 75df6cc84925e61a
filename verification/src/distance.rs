use vstd::prelude::*;

verus! {

/// The Levenshtein edit distance between two character sequences, as the
/// `levenshtein` crate computes it: a function of the two sequences alone.
pub uninterp spec fn lev(a: Seq<char>, b: Seq<char>) -> nat;

/// Relies on `levenshtein::levenshtein`: the Levenshtein edit distance of two
/// strings. The distance is a metric: it is zero exactly on equal strings, it
/// is symmetric in its two arguments, and it obeys the triangle inequality,
/// stated below in each argument order a caller needs.
#[verifier::external_body]
pub(crate) fn edit_distance(a: &str, b: &str) -> (d: usize)
    ensures
        d == lev(a@, b@),
        d == lev(b@, a@),
        d == 0 <==> a@ == b@,
        forall|z: Seq<char>| #[trigger] lev(a@, z) <= d + lev(b@, z),
        forall|z: Seq<char>| #[trigger] lev(z, b@) <= lev(z, a@) + d,
        forall|z: Seq<char>| d <= lev(a@, z) + #[trigger] lev(z, b@),
        forall|z: Seq<char>| d <= lev(b@, z) + #[trigger] lev(z, a@),
{
    levenshtein::levenshtein(a, b)
}

} // verus!
