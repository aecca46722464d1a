//! Edge signatures and the test that decides whether two edges may touch.

use vstd::prelude::*;

verus! {

/// Whether an edge with signature `mine` may touch an edge with signature
/// `theirs`.
///
/// Both signatures are read along the same winding direction of their own
/// tile, so the two tiles see the shared boundary from opposite ends: the
/// edges fit when one signature is the other read backwards.
pub open spec fn fits(mine: Seq<char>, theirs: Seq<char>) -> bool {
    mine == theirs.reverse()
}

/// Fitting does not depend on which of the two tiles is asked.
pub proof fn lemma_fits_symmetric(a: Seq<char>, b: Seq<char>)
    ensures
        fits(a, b) == fits(b, a),
{
    assert(a.reverse().reverse() =~= a);
    assert(b.reverse().reverse() =~= b);
}

/// The characters of `s`, in order.
pub fn signature_chars(s: &str) -> (chars: Vec<char>)
    ensures
        chars@ == s@,
{
    let mut chars: Vec<char> = Vec::new();
    for c in it: s.chars()
        invariant
            it.seq() == s@,
            chars@ == s@.take(it.index() as int),
    {
        chars.push(c);
    }
    chars
}

/// Decides `fits` on two signatures given by their characters.
pub fn chars_fit(mine: &Vec<char>, theirs: &Vec<char>) -> (r: bool)
    ensures
        r == fits(mine@, theirs@),
{
    let n: usize = mine.len();
    if theirs.len() != n {
        return false;
    }
    let mut i: usize = 0;
    while i < n
        invariant
            i <= n,
            n == mine@.len(),
            n == theirs@.len(),
            forall|j: int| 0 <= j < i ==> mine@[j] == theirs@[n - 1 - j],
        decreases n - i,
    {
        if mine[i] != theirs[n - 1 - i] {
            return false;
        }
        i += 1;
    }
    assert(mine@ =~= theirs@.reverse());
    true
}

} // verus!
