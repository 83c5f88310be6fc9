//! The boolean query evaluator.
//!
//! A query is an ordered list of raw terms. A term with a leading `-` is an
//! exclusion term, any other term an inclusion term. The first term seeds the
//! running result with its posting set — whatever its sign — and each later
//! term refines the running result: an inclusion term intersects its posting
//! set, an exclusion term subtracts it. An empty term list matches nothing.

use vstd::prelude::*;

use crate::store::PersistentMultiMap;
use crate::tokenize::contains_string;
use crate::tokenize::seq_has_view;

verus! {

/// Whether a raw term is an inclusion term: it carries no leading negation
/// marker.
pub open spec fn term_includes(term: Seq<char>) -> bool {
    !(term.len() > 0 && term[0] == '-')
}

/// The token a raw term names, the negation marker stripped.
pub open spec fn term_token(term: Seq<char>) -> Seq<char> {
    if term_includes(term) {
        term
    } else {
        term.subrange(1, term.len() as int)
    }
}

/// The running result after one more term: intersect for an inclusion term,
/// subtract for an exclusion term.
pub open spec fn query_step(
    m: PersistentMultiMap,
    acc: Set<Seq<char>>,
    term: Seq<char>,
) -> Set<Seq<char>> {
    if term_includes(term) {
        acc.intersect(m.posting_set(term_token(term)))
    } else {
        acc.difference(m.posting_set(term_token(term)))
    }
}

/// The running result after the first `n` of the query's terms, `1 <= n`:
/// the first term's posting set, refined by each following term in order.
pub open spec fn query_prefix(
    m: PersistentMultiMap,
    terms: Seq<Seq<char>>,
    n: int,
) -> Set<Seq<char>>
    decreases n,
{
    if n <= 1 {
        m.posting_set(term_token(terms[0]))
    } else {
        query_step(m, query_prefix(m, terms, n - 1), terms[n - 1])
    }
}

/// The documents a query matches: nothing for an empty term list, otherwise
/// the left-to-right fold of its terms.
pub open spec fn query_result(m: PersistentMultiMap, terms: Seq<Seq<char>>) -> Set<Seq<char>> {
    if terms.len() == 0 {
        Set::<Seq<char>>::empty()
    } else {
        query_prefix(m, terms, terms.len() as int)
    }
}

/// A raw term split into its sign and its token.
pub fn strip_term(term: &str) -> (r: (bool, String))
    ensures
        r.0 == term_includes(term@),
        r.1@ == term_token(term@),
{
    let n = term.unicode_len();
    if n > 0 && term.get_char(0) == '-' {
        (false, term.substring_char(1, n).to_owned())
    } else {
        (true, term.to_owned())
    }
}

/// The elements of `acc`, in order, that are in `matches` (when `includes`)
/// or not in it (when not).
fn refine(acc: &Vec<String>, matches: &Vec<String>, includes: bool) -> (r: Vec<String>)
    requires
        forall|a: int, b: int| 0 <= a < b < acc@.len() ==> acc@[a]@ != acc@[b]@,
    ensures
        forall|x: int|
            0 <= x < r@.len() ==> seq_has_view(acc@, r@[x]@) && (seq_has_view(matches@, r@[x]@)
                == includes),
        forall|v: Seq<char>|
            seq_has_view(acc@, v) && (seq_has_view(matches@, v) == includes) ==> seq_has_view(
                r@,
                v,
            ),
        forall|a: int, b: int| 0 <= a < b < r@.len() ==> r@[a]@ != r@[b]@,
{
    let mut r: Vec<String> = Vec::new();
    let m = acc.len();
    let mut a: usize = 0;
    while a < m
        invariant
            m == acc@.len(),
            a <= m,
            forall|a0: int, b0: int| 0 <= a0 < b0 < acc@.len() ==> acc@[a0]@ != acc@[b0]@,
            forall|x: int|
                0 <= x < r@.len() ==> (exists|a0: int| 0 <= a0 < a && acc@[a0]@ == r@[x]@) && (
                seq_has_view(matches@, r@[x]@) == includes),
            forall|a0: int|
                0 <= a0 < a && (seq_has_view(matches@, acc@[a0]@) == includes) ==> seq_has_view(
                    r@,
                    acc@[a0]@,
                ),
            forall|x: int, y: int| 0 <= x < y < r@.len() ==> r@[x]@ != r@[y]@,
        decreases m - a,
    {
        let keep = contains_string(matches, &acc[a]);
        let ghost r_before = r@;
        if keep == includes {
            r.push(acc[a].clone());
        }
        proof {
            assert forall|x: int|
                0 <= x < r@.len() implies (exists|a0: int|
                0 <= a0 < a + 1 && acc@[a0]@ == r@[x]@) && (seq_has_view(matches@, r@[x]@)
                == includes) by {
                if x < r_before.len() {
                    assert(r@[x] == r_before[x]);
                    assert((exists|a0: int| 0 <= a0 < a && acc@[a0]@ == r_before[x]@) && (
                    seq_has_view(matches@, r_before[x]@) == includes));
                    let a0 = choose|a0: int| 0 <= a0 < a && acc@[a0]@ == r_before[x]@;
                    assert(0 <= a0 < a + 1 && acc@[a0]@ == r@[x]@);
                } else {
                    assert(r@[x]@ == acc@[a as int]@);
                    assert(0 <= a < a + 1 && acc@[a as int]@ == r@[x]@);
                }
            }
            assert forall|a0: int|
                0 <= a0 < a + 1 && (seq_has_view(matches@, acc@[a0]@) == includes)
                    implies seq_has_view(r@, acc@[a0]@) by {
                if a0 < a {
                    assert(seq_has_view(r_before, acc@[a0]@));
                    let x = choose|x: int| 0 <= x < r_before.len() && r_before[x]@ == acc@[a0]@;
                    assert(r@[x]@ == acc@[a0]@);
                } else {
                    assert(r@[r@.len() - 1]@ == acc@[a0]@);
                }
            }
            assert forall|x: int, y: int| 0 <= x < y < r@.len() implies r@[x]@ != r@[y]@ by {
                if y == r_before.len() {
                    let a0 = choose|a0: int| 0 <= a0 < a && acc@[a0]@ == r@[x]@;
                    assert(acc@[a0]@ != acc@[a as int]@);
                }
            }
        }
        a = a + 1;
    }
    proof {
        assert forall|v: Seq<char>|
            seq_has_view(acc@, v) && (seq_has_view(matches@, v) == includes) implies seq_has_view(
            r@,
            v,
        ) by {
            let a0 = choose|a0: int| 0 <= a0 < acc@.len() && acc@[a0]@ == v;
            assert(seq_has_view(r@, acc@[a0]@));
        }
    }
    r
}

/// A list whose elements all lie in `s`, and which reaches all of `s`, holds
/// a view exactly when `s` holds it.
proof fn lemma_view_membership(v: Seq<String>, s: Set<Seq<char>>)
    requires
        forall|a: int| 0 <= a < v.len() ==> s.contains(v[a]@),
        forall|x: Seq<char>| s.contains(x) ==> seq_has_view(v, x),
    ensures
        forall|x: Seq<char>| s.contains(x) <==> seq_has_view(v, x),
{
    assert forall|x: Seq<char>| seq_has_view(v, x) implies s.contains(x) by {
        let a = choose|a: int| 0 <= a < v.len() && v[a]@ == x;
        assert(s.contains(v[a]@));
    }
}

impl PersistentMultiMap {
    /// Evaluate a query against the recorded postings. The result holds each
    /// matching document path exactly once; an empty term list yields an
    /// empty result.
    pub fn search(&self, terms: &Vec<String>) -> (r: Vec<String>)
        requires
            self.wf(),
        ensures
            forall|a: int|
                0 <= a < r@.len() ==> query_result(*self, terms@.map_values(|t: String| t@))
                    .contains(r@[a]@),
            forall|v: Seq<char>|
                query_result(*self, terms@.map_values(|t: String| t@)).contains(v)
                    ==> seq_has_view(r@, v),
            forall|a: int, b: int| 0 <= a < b < r@.len() ==> r@[a]@ != r@[b]@,
            terms@.len() == 0 ==> r@.len() == 0,
    {
        let ghost tviews = terms@.map_values(|t: String| t@);
        if terms.is_empty() {
            let r: Vec<String> = Vec::new();
            return r;
        }
        let (_, token0) = strip_term(terms[0].as_str());
        let mut acc = self.get(token0.as_str());
        proof {
            assert(tviews[0] == terms@[0]@);
        }
        let n = terms.len();
        for i in 1..n
            invariant
                n == terms@.len(),
                1 <= n,
                tviews == terms@.map_values(|t: String| t@),
                self.wf(),
                forall|a: int|
                    0 <= a < acc@.len() ==> query_prefix(*self, tviews, i as int).contains(
                        acc@[a]@,
                    ),
                forall|v: Seq<char>|
                    query_prefix(*self, tviews, i as int).contains(v) ==> seq_has_view(acc@, v),
                forall|a: int, b: int| 0 <= a < b < acc@.len() ==> acc@[a]@ != acc@[b]@,
        {
            let (includes, token) = strip_term(terms[i].as_str());
            let matches = self.get(token.as_str());
            let next = refine(&acc, &matches, includes);
            let ghost pset = query_prefix(*self, tviews, i as int);
            let ghost snext = query_prefix(*self, tviews, i as int + 1);
            proof {
                assert(tviews[i as int] == terms@[i as int]@);
                assert(snext == query_step(*self, pset, tviews[i as int]));
                lemma_view_membership(acc@, pset);
                lemma_view_membership(matches@, self.posting_set(token@));
                assert forall|x: int| 0 <= x < next@.len() implies snext.contains(next@[x]@) by {
                    assert(seq_has_view(acc@, next@[x]@));
                    assert(seq_has_view(matches@, next@[x]@) == includes);
                }
                assert forall|v: Seq<char>| snext.contains(v) implies seq_has_view(next@, v) by {
                    assert(pset.contains(v));
                    assert(seq_has_view(acc@, v));
                    assert(seq_has_view(matches@, v) == includes);
                }
            }
            acc = next;
        }
        proof {
            assert(query_result(*self, tviews) == query_prefix(*self, tviews, n as int));
        }
        acc
    }
}

} // verus!
