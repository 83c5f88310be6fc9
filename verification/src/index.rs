//! Indexing documents into the multimap.
//!
//! Indexing one document records the document's path once under the folded
//! key of every distinct token of its text. Indexing a corpus indexes its
//! documents in order. Nothing is ever removed: a key's read set only grows,
//! and re-indexing the same corpus leaves every read — and so every query
//! result — unchanged.

use vstd::prelude::*;

use crate::fold::lower_of;
use crate::query::query_result;
use crate::query::query_prefix;
use crate::query::term_token;
use crate::store::PersistentMultiMap;
use crate::tokenize::tokenize;
use crate::tokenize::tokens_of;
use crate::tokenize::seq_has_view;

verus! {

/// One document of a corpus: its path and its text.
pub struct Document {
    pub path: String,
    pub text: String,
}

/// Whether indexing a document with text `text` touches the folded key `fk`:
/// some token of the text folds to it.
pub open spec fn doc_adds(text: Seq<char>, fk: Seq<char>) -> bool {
    exists|t: Seq<char>| tokens_of(text).contains(t) && lower_of(t) == fk
}

/// The document paths that indexing `docs` records under the folded key
/// `fk`: the paths of those documents some token of which folds to it.
pub open spec fn corpus_postings(docs: Seq<Document>, fk: Seq<char>) -> Set<Seq<char>>
    decreases docs.len(),
{
    if docs.len() == 0 {
        Set::<Seq<char>>::empty()
    } else {
        corpus_postings(docs.drop_last(), fk).union(
            if doc_adds(docs.last().text@, fk) {
                Set::<Seq<char>>::empty().insert(docs.last().path@)
            } else {
                Set::<Seq<char>>::empty()
            },
        )
    }
}

impl PersistentMultiMap {
    /// Record `doc_path` under every distinct token of `text`: each touched
    /// key's read gains the path, every other key's read is unchanged — so
    /// after indexing, every token of the text finds the document.
    pub fn index_document(&mut self, doc_path: &str, text: &str)
        requires
            old(self).wf(),
        ensures
            final(self).wf(),
            final(self).directory == old(self).directory,
            forall|fk: Seq<char>|
                final(self).key_set(fk) == (if doc_adds(text@, fk) {
                    old(self).key_set(fk).insert(doc_path@)
                } else {
                    old(self).key_set(fk)
                }),
            forall|t: Seq<char>|
                tokens_of(text@).contains(t) ==> final(self).posting_set(t).contains(doc_path@),
    {
        let ghost orig = *self;
        let tokens = tokenize(text);
        let n = tokens.len();
        let mut k: usize = 0;
        while k < n
            invariant
                self.wf(),
                self.directory == orig.directory,
                orig.wf(),
                n == tokens@.len(),
                k <= n,
                forall|i: int| 0 <= i < n ==> tokens_of(text@).contains(tokens@[i]@),
                forall|t: Seq<char>| tokens_of(text@).contains(t) ==> seq_has_view(tokens@, t),
                forall|fk: Seq<char>|
                    self.key_set(fk) == (if (exists|j: int|
                        0 <= j < k && lower_of(tokens@[j]@) == fk) {
                        orig.key_set(fk).insert(doc_path@)
                    } else {
                        orig.key_set(fk)
                    }),
            decreases n - k,
        {
            let ghost before = *self;
            self.add(tokens[k].as_str(), doc_path);
            proof {
                let gk = k as int;
                let fkk = lower_of(tokens@[gk]@);
                assert forall|fk: Seq<char>|
                    self.key_set(fk) == (if (exists|j: int|
                        0 <= j < gk + 1 && lower_of(tokens@[j]@) == fk) {
                        orig.key_set(fk).insert(doc_path@)
                    } else {
                        orig.key_set(fk)
                    }) by {
                    if fk == fkk {
                        assert(exists|j: int| 0 <= j < gk + 1 && lower_of(tokens@[j]@) == fk);
                        if exists|j: int| 0 <= j < gk && lower_of(tokens@[j]@) == fk {
                            assert(self.key_set(fk) =~= orig.key_set(fk).insert(doc_path@));
                        }
                    } else {
                        assert(self.key_set(fk) == before.key_set(fk));
                        if exists|j: int| 0 <= j < gk + 1 && lower_of(tokens@[j]@) == fk {
                            let j = choose|j: int|
                                0 <= j < gk + 1 && lower_of(tokens@[j]@) == fk;
                            assert(0 <= j < gk && lower_of(tokens@[j]@) == fk);
                        }
                    }
                }
            }
            k = k + 1;
        }
        proof {
            assert forall|fk: Seq<char>|
                self.key_set(fk) == (if doc_adds(text@, fk) {
                    orig.key_set(fk).insert(doc_path@)
                } else {
                    orig.key_set(fk)
                }) by {
                if doc_adds(text@, fk) {
                    let t = choose|t: Seq<char>|
                        tokens_of(text@).contains(t) && lower_of(t) == fk;
                    assert(seq_has_view(tokens@, t));
                    let i = choose|i: int| 0 <= i < tokens@.len() && tokens@[i]@ == t;
                    assert(0 <= i < n && lower_of(tokens@[i]@) == fk);
                } else {
                    if exists|j: int| 0 <= j < n && lower_of(tokens@[j]@) == fk {
                        let j = choose|j: int| 0 <= j < n && lower_of(tokens@[j]@) == fk;
                        assert(tokens_of(text@).contains(tokens@[j]@) && lower_of(tokens@[j]@)
                            == fk);
                        assert(doc_adds(text@, fk));
                    }
                }
            }
            assert forall|t: Seq<char>| tokens_of(text@).contains(t) implies self.posting_set(
                t,
            ).contains(doc_path@) by {
                assert(doc_adds(text@, lower_of(t)));
                assert(self.key_set(lower_of(t)).contains(doc_path@));
            }
        }
    }

    /// Index every document of `docs`, in order: each key's read gains
    /// exactly the corpus's contribution to it.
    pub fn index_corpus(&mut self, docs: &Vec<Document>)
        requires
            old(self).wf(),
        ensures
            final(self).wf(),
            final(self).directory == old(self).directory,
            forall|fk: Seq<char>|
                final(self).key_set(fk) == old(self).key_set(fk).union(
                    corpus_postings(docs@, fk),
                ),
    {
        let ghost orig = *self;
        let n = docs.len();
        proof {
            assert(docs@.take(0).len() == 0);
            assert forall|fk: Seq<char>|
                orig.key_set(fk).union(corpus_postings(docs@.take(0), fk)) == orig.key_set(
                fk,
            ) by {
                assert(orig.key_set(fk).union(Set::<Seq<char>>::empty()) =~= orig.key_set(fk));
            }
        }
        let mut k: usize = 0;
        while k < n
            invariant
                self.wf(),
                self.directory == orig.directory,
                orig.wf(),
                n == docs@.len(),
                k <= n,
                forall|fk: Seq<char>|
                    self.key_set(fk) == orig.key_set(fk).union(
                        corpus_postings(docs@.take(k as int), fk),
                    ),
            decreases n - k,
        {
            let ghost before = *self;
            let doc = &docs[k];
            self.index_document(doc.path.as_str(), doc.text.as_str());
            proof {
                let gk = k as int;
                assert(docs@.take(gk + 1).drop_last() =~= docs@.take(gk));
                assert(docs@.take(gk + 1).last() == docs@[gk]);
                assert forall|fk: Seq<char>|
                    self.key_set(fk) == orig.key_set(fk).union(
                        corpus_postings(docs@.take(gk + 1), fk),
                    ) by {
                    if doc_adds(docs@[gk].text@, fk) {
                        assert(self.key_set(fk) == before.key_set(fk).insert(docs@[gk].path@));
                        assert(orig.key_set(fk).union(corpus_postings(docs@.take(gk), fk)).insert(
                            docs@[gk].path@,
                        ) =~= orig.key_set(fk).union(corpus_postings(docs@.take(gk + 1), fk)));
                    } else {
                        assert(self.key_set(fk) == before.key_set(fk));
                        assert(orig.key_set(fk).union(corpus_postings(docs@.take(gk), fk))
                            =~= orig.key_set(fk).union(corpus_postings(docs@.take(gk + 1), fk)));
                    }
                }
            }
            k = k + 1;
        }
        proof {
            assert(docs@.take(n as int) =~= docs@);
        }
    }
}

/// Law: a query reads the index only through each key's read set, so two
/// stores whose keys all read alike answer every query alike.
pub proof fn lemma_query_same_postings(
    m1: PersistentMultiMap,
    m2: PersistentMultiMap,
    terms: Seq<Seq<char>>,
)
    requires
        forall|fk: Seq<char>| m1.key_set(fk) == m2.key_set(fk),
    ensures
        query_result(m1, terms) == query_result(m2, terms),
{
    if terms.len() > 0 {
        lemma_query_prefix_same_postings(m1, m2, terms, terms.len() as int);
    }
}

/// The running result after any prefix of the terms agrees on two stores
/// whose keys all read alike.
proof fn lemma_query_prefix_same_postings(
    m1: PersistentMultiMap,
    m2: PersistentMultiMap,
    terms: Seq<Seq<char>>,
    n: int,
)
    requires
        forall|fk: Seq<char>| m1.key_set(fk) == m2.key_set(fk),
    ensures
        query_prefix(m1, terms, n) == query_prefix(m2, terms, n),
    decreases n,
{
    assert(m1.posting_set(term_token(terms[0])) == m2.posting_set(term_token(terms[0])));
    if n > 1 {
        lemma_query_prefix_same_postings(m1, m2, terms, n - 1);
        assert(m1.posting_set(term_token(terms[n - 1])) == m2.posting_set(
            term_token(terms[n - 1]),
        ));
    }
}

/// Law: re-indexing an unchanged corpus is read-idempotent. When `m1` came
/// from indexing `docs` into `m0`, and `m2` from indexing the same `docs`
/// into `m1` again, every term list queries alike on `m1` and `m2`, even
/// though the recorded lines may have grown.
pub proof fn lemma_reindex_read_idempotent(
    m0: PersistentMultiMap,
    m1: PersistentMultiMap,
    m2: PersistentMultiMap,
    docs: Seq<Document>,
    terms: Seq<Seq<char>>,
)
    requires
        forall|fk: Seq<char>| m1.key_set(fk) == m0.key_set(fk).union(corpus_postings(docs, fk)),
        forall|fk: Seq<char>| m2.key_set(fk) == m1.key_set(fk).union(corpus_postings(docs, fk)),
    ensures
        query_result(m2, terms) == query_result(m1, terms),
{
    assert forall|fk: Seq<char>| m2.key_set(fk) == m1.key_set(fk) by {
        assert(m0.key_set(fk).union(corpus_postings(docs, fk)).union(corpus_postings(docs, fk))
            =~= m0.key_set(fk).union(corpus_postings(docs, fk)));
    }
    lemma_query_same_postings(m2, m1, terms);
}

} // verus!
