//! Tokenization of document text.
//!
//! A document's text is split on maximal runs of non-word characters (any
//! character that is not alphanumeric or an underscore); empty fragments are
//! discarded and repeated tokens collapse, so each distinct token of one
//! document appears once. Token text is kept as written: case folding happens
//! only when a storage key is derived.

use vstd::prelude::*;

verus! {

/// The fragments of `text` between maximal runs of non-word characters, in
/// order, as the split of `text` on the pattern `\W+` yields them; fragments
/// at the edges of the text may be empty.
pub uninterp spec fn split_fragments(text: Seq<char>) -> Seq<Seq<char>>;

/// Relies on `regex::Regex::new` and `regex::Regex::split`: the pattern
/// `\W+` is well formed, and splitting on it yields the fragments of the
/// haystack between matches of the pattern, in order; the result depends on
/// the haystack alone.
#[verifier::external_body]
fn split_nonword(text: &str) -> (r: Vec<String>)
    ensures
        r@.map_values(|f: String| f@) == split_fragments(text@),
{
    let pattern = regex::Regex::new(r"\W+").expect("the split pattern is well formed");
    pattern.split(text).map(|f| f.to_string()).collect()
}

/// The set of distinct tokens of a document text: its nonempty fragments.
pub open spec fn tokens_of(text: Seq<char>) -> Set<Seq<char>> {
    Set::new(|t: Seq<char>| split_fragments(text).contains(t) && t.len() > 0)
}

/// Whether some element of `v` views as `t`.
pub open spec fn seq_has_view(v: Seq<String>, t: Seq<char>) -> bool {
    exists|i: int| 0 <= i < v.len() && v[i]@ == t
}

/// Whether `v` holds `x` (by character content).
pub(crate) fn contains_string(v: &Vec<String>, x: &String) -> (r: bool)
    ensures
        r == seq_has_view(v@, x@),
{
    let n = v.len();
    for i in 0..n
        invariant
            n == v@.len(),
            forall|j: int| 0 <= j < i ==> v@[j]@ != x@,
    {
        if v[i] == *x {
            proof {
                assert(seq_has_view(v@, x@));
            }
            return true;
        }
    }
    false
}

/// The distinct tokens of one document text, each exactly once, in first
/// appearance order.
pub fn tokenize(text: &str) -> (r: Vec<String>)
    ensures
        forall|i: int| 0 <= i < r@.len() ==> tokens_of(text@).contains(r@[i]@),
        forall|t: Seq<char>| tokens_of(text@).contains(t) ==> seq_has_view(r@, t),
        forall|i: int, j: int| 0 <= i < j < r@.len() ==> r@[i]@ != r@[j]@,
{
    let fragments = split_nonword(text);
    let ghost frag_views = fragments@.map_values(|f: String| f@);
    let mut r: Vec<String> = Vec::new();
    let n = fragments.len();
    for k in 0..n
        invariant
            n == fragments@.len(),
            frag_views == fragments@.map_values(|f: String| f@),
            frag_views == split_fragments(text@),
            forall|i: int| 0 <= i < r@.len() ==> tokens_of(text@).contains(r@[i]@),
            forall|t: Seq<char>|
                (exists|j: int| 0 <= j < k && frag_views[j] == t && t.len() > 0) ==> seq_has_view(
                    r@,
                    t,
                ),
            forall|i: int, j: int| 0 <= i < j < r@.len() ==> r@[i]@ != r@[j]@,
    {
        let fragment = &fragments[k];
        proof {
            assert(frag_views[k as int] == fragment@);
            assert(split_fragments(text@).contains(fragment@));
        }
        let is_new = !fragment.as_str().is_empty() && !contains_string(&r, fragment);
        let ghost r_before = r@;
        if is_new {
            r.push(fragment.clone());
        }
        proof {
            assert forall|t: Seq<char>|
                (exists|j: int| 0 <= j < k + 1 && frag_views[j] == t && t.len() > 0)
                    implies seq_has_view(r@, t) by {
                let j = choose|j: int| 0 <= j < k + 1 && frag_views[j] == t && t.len() > 0;
                if j < k {
                    assert(exists|j0: int| 0 <= j0 < k && frag_views[j0] == t && t.len() > 0);
                    assert(seq_has_view(r_before, t));
                    let i = choose|i: int| 0 <= i < r_before.len() && r_before[i]@ == t;
                    assert(r@[i]@ == t);
                } else {
                    assert(t == fragment@);
                    if is_new {
                        assert(r@[r@.len() - 1]@ == t);
                    } else {
                        let i = choose|i: int|
                            0 <= i < r_before.len() && r_before[i]@ == fragment@;
                        assert(r@[i]@ == t);
                    }
                }
            }
        }
    }
    proof {
        assert forall|t: Seq<char>| tokens_of(text@).contains(t) implies seq_has_view(r@, t) by {
            assert(split_fragments(text@).contains(t));
            let j = choose|j: int|
                0 <= j < split_fragments(text@).len() && split_fragments(text@)[j] == t;
            assert(frag_views[j] == t);
        }
    }
    r
}

} // verus!
