//! The persistent multimap from folded token keys to sets of document paths.
//!
//! Each distinct folded token owns one posting entry: an append-only sequence
//! of document-path lines. A read deduplicates the lines into a set; a key
//! without an entry reads as the empty set. The surrounding program mirrors
//! every entry as one file under the index directory, at the location
//! `get_path` names.

use vstd::prelude::*;

use crate::fold::fold_key;
use crate::fold::lower_of;
use crate::lines::lines_of;
use crate::lines::parse_lines;
use crate::tokenize::contains_string;
use crate::tokenize::seq_has_view;

verus! {

/// One posting entry: the document-path lines appended, in order, under one
/// folded storage key.
#[derive(Clone)]
pub struct PostingLog {
    pub key: String,
    pub lines: Vec<String>,
}

/// The multimap of posting entries for one index root. `directory` names the
/// index root; `entries` holds one posting entry per distinct folded key.
#[derive(Clone)]
pub struct PersistentMultiMap {
    pub directory: String,
    pub entries: Vec<PostingLog>,
}

impl PersistentMultiMap {
    /// Well-formed: no two entries share a storage key.
    pub open spec fn wf(self) -> bool {
        forall|i: int, j: int|
            0 <= i < j < self.entries@.len() ==> self.entries@[i].key@ != self.entries@[j].key@
    }

    /// Whether an entry is recorded under the folded key `fk`.
    pub open spec fn has_key(self, fk: Seq<char>) -> bool {
        exists|i: int| 0 <= i < self.entries@.len() && self.entries@[i].key@ == fk
    }

    /// The index of the entry recorded under `fk` (meaningful when `wf()` and
    /// `has_key(fk)` hold).
    pub open spec fn key_index(self, fk: Seq<char>) -> int {
        choose|i: int| 0 <= i < self.entries@.len() && self.entries@[i].key@ == fk
    }

    /// The lines recorded under `fk`, in append order.
    pub open spec fn key_lines(self, fk: Seq<char>) -> Seq<Seq<char>> {
        self.entries@[self.key_index(fk)].lines@.map_values(|l: String| l@)
    }

    /// What a read of the folded key `fk` yields: the recorded lines
    /// deduplicated into a set; a missing entry reads as the empty set.
    pub open spec fn key_set(self, fk: Seq<char>) -> Set<Seq<char>> {
        if self.has_key(fk) {
            self.key_lines(fk).to_set()
        } else {
            Set::<Seq<char>>::empty()
        }
    }

    /// What a read of the (raw) token `token` yields: the read of its folded
    /// storage key.
    pub open spec fn posting_set(self, token: Seq<char>) -> Set<Seq<char>> {
        self.key_set(lower_of(token))
    }

    /// Law: only the folded form of a token reaches storage, so two tokens
    /// with the same folded form read as the same posting set — differently
    /// cased occurrences of one word answer the same query term.
    pub proof fn lemma_case_folded_reads(self, t1: Seq<char>, t2: Seq<char>)
        requires
            lower_of(t1) == lower_of(t2),
        ensures
            self.posting_set(t1) == self.posting_set(t2),
    {
    }

    /// The entry at a valid index is the one its own key resolves to.
    pub proof fn lemma_key_lines_at(self, i: int)
        requires
            self.wf(),
            0 <= i < self.entries@.len(),
        ensures
            self.has_key(self.entries@[i].key@),
            self.key_index(self.entries@[i].key@) == i,
            self.key_lines(self.entries@[i].key@) == self.entries@[i].lines@.map_values(
                |l: String| l@,
            ),
    {
        let fk = self.entries@[i].key@;
        assert(self.has_key(fk));
        let j = self.key_index(fk);
        assert(0 <= j < self.entries@.len() && self.entries@[j].key@ == fk);
        if i < j {
            assert(self.entries@[i].key@ != self.entries@[j].key@);
        } else if j < i {
            assert(self.entries@[j].key@ != self.entries@[i].key@);
        }
    }

    /// An empty multimap for the index root `directory`.
    pub fn new(directory: String) -> (r: Self)
        ensures
            r.wf(),
            r.directory@ == directory@,
            r.entries@.len() == 0,
    {
        PersistentMultiMap { directory, entries: Vec::new() }
    }

    /// The storage location of a token's posting entry: the index directory,
    /// a path separator, and the folded storage key.
    pub fn get_path(&self, key: &str) -> (r: String)
        ensures
            r@ == self.directory@ + seq!['/'] + lower_of(key@),
    {
        let folded = fold_key(key);
        let mut r = self.directory.clone();
        r.append("/");
        r.append(folded.as_str());
        proof {
            reveal_strlit("/");
            assert(r@ =~= self.directory@ + seq!['/'] + lower_of(key@));
        }
        r
    }

    /// The index of the entry whose key equals `folded`, if there is one.
    fn find_entry(&self, folded: &String) -> (r: Option<usize>)
        ensures
            match r {
                Some(i) => i < self.entries@.len() && self.entries@[i as int].key@ == folded@,
                None => forall|i: int|
                    0 <= i < self.entries@.len() ==> self.entries@[i].key@ != folded@,
            },
    {
        let n = self.entries.len();
        for i in 0..n
            invariant
                n == self.entries@.len(),
                forall|j: int| 0 <= j < i ==> self.entries@[j].key@ != folded@,
        {
            if self.entries[i].key == *folded {
                return Some(i);
            }
        }
        None
    }

    /// Record `value` under the folded key of `key`: append one line to the
    /// key's entry, creating the entry if it is missing. Reads of every other
    /// key are unchanged.
    pub fn add(&mut self, key: &str, value: &str)
        requires
            old(self).wf(),
        ensures
            final(self).wf(),
            final(self).directory == old(self).directory,
            final(self).has_key(lower_of(key@)),
            final(self).key_lines(lower_of(key@)) == (if old(self).has_key(lower_of(key@)) {
                old(self).key_lines(lower_of(key@)).push(value@)
            } else {
                seq![value@]
            }),
            forall|fk: Seq<char>|
                fk != lower_of(key@) ==> (final(self).has_key(fk) <==> old(self).has_key(fk)),
            forall|fk: Seq<char>|
                fk != lower_of(key@) && old(self).has_key(fk) ==> final(self).key_lines(fk)
                    == old(self).key_lines(fk),
            forall|fk: Seq<char>|
                final(self).key_set(fk) == (if fk == lower_of(key@) {
                    old(self).key_set(fk).insert(value@)
                } else {
                    old(self).key_set(fk)
                }),
    {
        broadcast use Seq::<_>::lemma_push_map_commute;
        broadcast use Seq::<_>::lemma_push_to_set_commute;

        let ghost prev = *self;
        let ghost fk0 = lower_of(key@);
        let folded = fold_key(key);
        match self.find_entry(&folded) {
            Some(i) => {
                self.entries[i].lines.push(value.to_owned());
                proof {
                    let gi = i as int;
                    assert forall|a: int, b: int| 0 <= a < b < self.entries@.len() implies self
                        .entries@[a].key@ != self.entries@[b].key@ by {
                        assert(self.entries@[a].key == prev.entries@[a].key);
                        assert(self.entries@[b].key == prev.entries@[b].key);
                    }
                    prev.lemma_key_lines_at(gi);
                    self.lemma_key_lines_at(gi);
                    assert(self.key_lines(fk0) =~= prev.key_lines(fk0).push(value@));
                    assert forall|fk: Seq<char>| fk != fk0 implies (self.has_key(fk)
                        <==> prev.has_key(fk)) by {
                        if self.has_key(fk) {
                            let j = self.key_index(fk);
                            assert(prev.entries@[j].key@ == fk);
                        }
                        if prev.has_key(fk) {
                            let j = prev.key_index(fk);
                            assert(self.entries@[j].key@ == fk);
                        }
                    }
                    assert forall|fk: Seq<char>|
                        fk != fk0 && prev.has_key(fk) implies self.key_lines(fk) == prev.key_lines(
                        fk,
                    ) by {
                        let j = prev.key_index(fk);
                        prev.lemma_key_lines_at(j);
                        self.lemma_key_lines_at(j);
                    }
                    assert forall|fk: Seq<char>| self.key_set(fk) == (if fk == fk0 {
                        prev.key_set(fk).insert(value@)
                    } else {
                        prev.key_set(fk)
                    }) by {
                        if fk == fk0 {
                            assert(self.key_set(fk) =~= prev.key_set(fk).insert(value@));
                        } else if prev.has_key(fk) {
                            assert(self.key_set(fk) =~= prev.key_set(fk));
                        } else {
                            assert(self.key_set(fk) =~= prev.key_set(fk));
                        }
                    }
                }
            },
            None => {
                let mut lines: Vec<String> = Vec::new();
                lines.push(value.to_owned());
                self.entries.push(PostingLog { key: folded, lines });
                proof {
                    let n = prev.entries@.len() as int;
                    assert forall|a: int, b: int| 0 <= a < b < self.entries@.len() implies self
                        .entries@[a].key@ != self.entries@[b].key@ by {
                        if b < n {
                            assert(self.entries@[a] == prev.entries@[a]);
                            assert(self.entries@[b] == prev.entries@[b]);
                        } else {
                            assert(self.entries@[a] == prev.entries@[a]);
                            assert(self.entries@[b].key@ == fk0);
                        }
                    }
                    assert(self.entries@[n].key@ == fk0);
                    self.lemma_key_lines_at(n);
                    assert(self.key_lines(fk0) =~= seq![value@]);
                    assert(!prev.has_key(fk0));
                    assert forall|fk: Seq<char>| fk != fk0 implies (self.has_key(fk)
                        <==> prev.has_key(fk)) by {
                        if self.has_key(fk) {
                            let j = self.key_index(fk);
                            assert(j < n);
                            assert(prev.entries@[j].key@ == fk);
                        }
                        if prev.has_key(fk) {
                            let j = prev.key_index(fk);
                            assert(self.entries@[j].key@ == fk);
                        }
                    }
                    assert forall|fk: Seq<char>|
                        fk != fk0 && prev.has_key(fk) implies self.key_lines(fk) == prev.key_lines(
                        fk,
                    ) by {
                        let j = prev.key_index(fk);
                        prev.lemma_key_lines_at(j);
                        self.lemma_key_lines_at(j);
                    }
                    assert(seq![value@].to_set() =~= Set::<Seq<char>>::empty().insert(value@)) by {
                        assert(seq![value@][0] == value@);
                    }
                    assert forall|fk: Seq<char>| self.key_set(fk) == (if fk == fk0 {
                        prev.key_set(fk).insert(value@)
                    } else {
                        prev.key_set(fk)
                    }) by {
                        if fk == fk0 {
                            assert(self.key_set(fk) =~= prev.key_set(fk).insert(value@));
                        } else if prev.has_key(fk) {
                            assert(self.key_set(fk) =~= prev.key_set(fk));
                        } else {
                            assert(self.key_set(fk) =~= prev.key_set(fk));
                        }
                    }
                }
            },
        }
    }

    /// The document paths recorded for `key`: the lines of its posting entry,
    /// deduplicated, in first appearance order; a missing entry yields
    /// nothing.
    pub fn get(&self, key: &str) -> (r: Vec<String>)
        requires
            self.wf(),
        ensures
            forall|a: int| 0 <= a < r@.len() ==> self.posting_set(key@).contains(r@[a]@),
            forall|v: Seq<char>| self.posting_set(key@).contains(v) ==> seq_has_view(r@, v),
            forall|a: int, b: int| 0 <= a < b < r@.len() ==> r@[a]@ != r@[b]@,
    {
        let folded = fold_key(key);
        let mut r: Vec<String> = Vec::new();
        match self.find_entry(&folded) {
            Some(e) => {
                proof {
                    self.lemma_key_lines_at(e as int);
                }
                let ghost lines = self.entries@[e as int].lines@.map_values(|l: String| l@);
                let n = self.entries[e].lines.len();
                for i in 0..n
                    invariant
                        e < self.entries@.len(),
                        n == self.entries@[e as int].lines@.len(),
                        lines == self.entries@[e as int].lines@.map_values(|l: String| l@),
                        forall|a: int| 0 <= a < r@.len() ==> lines.contains(r@[a]@),
                        forall|j: int| 0 <= j < i ==> seq_has_view(r@, lines[j]),
                        forall|a: int, b: int| 0 <= a < b < r@.len() ==> r@[a]@ != r@[b]@,
                {
                    let line = &self.entries[e].lines[i];
                    proof {
                        assert(lines[i as int] == line@);
                        assert(lines.contains(line@));
                    }
                    let is_new = !contains_string(&r, line);
                    let ghost r_before = r@;
                    if is_new {
                        r.push(line.clone());
                    }
                    proof {
                        assert forall|j: int| 0 <= j < i + 1 implies seq_has_view(r@, lines[j]) by {
                            if j < i {
                                assert(seq_has_view(r_before, lines[j]));
                                let a = choose|a: int|
                                    0 <= a < r_before.len() && r_before[a]@ == lines[j];
                                assert(r@[a]@ == lines[j]);
                            } else if is_new {
                                assert(r@[r@.len() - 1]@ == lines[j]);
                            } else {
                                let a = choose|a: int|
                                    0 <= a < r_before.len() && r_before[a]@ == line@;
                                assert(r@[a]@ == lines[j]);
                            }
                        }
                    }
                }
                proof {
                    assert(self.posting_set(key@) =~= lines.to_set());
                    assert forall|v: Seq<char>| self.posting_set(key@).contains(v)
                        implies seq_has_view(r@, v) by {
                        assert(lines.contains(v));
                        let j = choose|j: int| 0 <= j < lines.len() && lines[j] == v;
                        assert(seq_has_view(r@, lines[j]));
                    }
                }
            },
            None => {
                proof {
                    assert(!self.has_key(folded@));
                }
            },
        }
        r
    }

    /// The number of distinct keys recorded: what the build summary reports.
    pub fn key_count(&self) -> (n: usize)
        ensures
            n == self.entries@.len(),
    {
        self.entries.len()
    }

    /// Replace what is recorded under the folded key of `key` with the lines
    /// of `content`, as read back from the key's posting file. Reads of every
    /// other key are unchanged.
    pub fn load_key(&mut self, key: &str, content: &str)
        requires
            old(self).wf(),
        ensures
            final(self).wf(),
            final(self).directory == old(self).directory,
            final(self).has_key(lower_of(key@)),
            final(self).key_lines(lower_of(key@)) == lines_of(content@),
            forall|fk: Seq<char>|
                fk != lower_of(key@) ==> (final(self).has_key(fk) <==> old(self).has_key(fk)),
            forall|fk: Seq<char>|
                fk != lower_of(key@) && old(self).has_key(fk) ==> final(self).key_lines(fk)
                    == old(self).key_lines(fk),
            forall|fk: Seq<char>|
                fk != lower_of(key@) ==> final(self).key_set(fk) == old(self).key_set(fk),
    {
        let ghost prev = *self;
        let ghost fk0 = lower_of(key@);
        let folded = fold_key(key);
        let lines = parse_lines(content);
        match self.find_entry(&folded) {
            Some(i) => {
                self.entries[i].lines = lines;
                proof {
                    let gi = i as int;
                    assert forall|a: int, b: int| 0 <= a < b < self.entries@.len() implies self
                        .entries@[a].key@ != self.entries@[b].key@ by {
                        assert(self.entries@[a].key == prev.entries@[a].key);
                        assert(self.entries@[b].key == prev.entries@[b].key);
                    }
                    prev.lemma_key_lines_at(gi);
                    self.lemma_key_lines_at(gi);
                    assert(self.key_lines(fk0) =~= lines_of(content@));
                    self.lemma_unchanged_keys(prev, fk0);
                }
            },
            None => {
                self.entries.push(PostingLog { key: folded, lines });
                proof {
                    let n = prev.entries@.len() as int;
                    assert forall|a: int, b: int| 0 <= a < b < self.entries@.len() implies self
                        .entries@[a].key@ != self.entries@[b].key@ by {
                        assert(self.entries@[a] == prev.entries@[a]);
                        if b < n {
                            assert(self.entries@[b] == prev.entries@[b]);
                        } else {
                            assert(self.entries@[b].key@ == fk0);
                        }
                    }
                    assert(self.entries@[n].key@ == fk0);
                    self.lemma_key_lines_at(n);
                    assert(self.key_lines(fk0) =~= lines_of(content@));
                    self.lemma_unchanged_keys(prev, fk0);
                }
            },
        }
    }

    /// When every entry outside the one holding `fk0` is unchanged, so is the
    /// read of every other key.
    proof fn lemma_unchanged_keys(self, prev: Self, fk0: Seq<char>)
        requires
            self.wf(),
            prev.wf(),
            forall|j: int|
                0 <= j < self.entries@.len() && self.entries@[j].key@ != fk0 ==> j
                    < prev.entries@.len() && self.entries@[j] == prev.entries@[j],
            forall|j: int|
                0 <= j < prev.entries@.len() && prev.entries@[j].key@ != fk0 ==> j
                    < self.entries@.len() && self.entries@[j] == prev.entries@[j],
        ensures
            forall|fk: Seq<char>| fk != fk0 ==> (self.has_key(fk) <==> prev.has_key(fk)),
            forall|fk: Seq<char>|
                fk != fk0 && prev.has_key(fk) ==> self.key_lines(fk) == prev.key_lines(fk),
            forall|fk: Seq<char>| fk != fk0 ==> self.key_set(fk) == prev.key_set(fk),
    {
        assert forall|fk: Seq<char>| fk != fk0 implies (self.has_key(fk) <==> prev.has_key(
            fk,
        )) by {
            if self.has_key(fk) {
                let j = self.key_index(fk);
                assert(prev.entries@[j].key@ == fk);
            }
            if prev.has_key(fk) {
                let j = prev.key_index(fk);
                assert(self.entries@[j].key@ == fk);
            }
        }
        assert forall|fk: Seq<char>| fk != fk0 && prev.has_key(fk) implies self.key_lines(fk)
            == prev.key_lines(fk) by {
            let j = prev.key_index(fk);
            prev.lemma_key_lines_at(j);
            self.lemma_key_lines_at(j);
        }
        assert forall|fk: Seq<char>| fk != fk0 implies self.key_set(fk) == prev.key_set(fk) by {
            assert(self.key_set(fk) =~= prev.key_set(fk));
        }
    }
}

} // verus!
