//! Declared document text index using normalized token postings.

use crate::arith::{saturated, saturating_product, spec_min};
use crate::index::bitmap::{bitmap_rows, empty_bitmap, intersect, lemma_rows_finite};
use crate::index::keys::{alike, law_plain_keys, IndexKey, Key};
use crate::index::postings::{first_of, PostingDomain, PostingTable};
use crate::index::ranking::{
    add_score, ascending_scores, rank, rank_rows, ranked, ranking, score_map,
};
use crate::index::scalar::{is_shape, lists_keys, PostingShape, Postings};
use crate::index::terms::{
    ascending_terms, check_ascending_terms, folded, term_of, texts, tokenize,
};
use crate::persistent::radix::PersistentMap;
use crate::shared::{lemma_handle_faithful, Handle};
use roaring::RoaringBitmap;
use vstd::prelude::*;

verus! {

/// Terms by row and rows by term.
pub struct TextIndex {
    postings: Postings,
    rows: PersistentMap<Handle<Vec<String>>>,
}

impl Clone for TextIndex {
    fn clone(&self) -> (copy: Self)
        ensures
            copy == *self,
    {
        TextIndex { postings: self.postings.clone(), rows: self.rows.clone() }
    }
}

impl Default for TextIndex {
    fn default() -> (index: Self)
        ensures
            index.wf(),
            index.row_count() == 0,
            forall|row: u32, term: Seq<char>| !#[trigger] index.has_term(row, term),
    {
        let index = TextIndex {
            postings: Postings::empty(PostingDomain::Term),
            rows: PersistentMap::default(),
        };
        assert(index.rows@.dom() =~= Set::<u128>::empty());
        index
    }
}

impl TextIndex {
    /// The text of the row has the term.
    pub closed spec fn has_term(&self, row: u32, term: Seq<char>) -> bool {
        self.rows@.dom().contains(row as u128) && texts(
            self.rows@[row as u128].spec_value()@,
        ).contains(term)
    }

    /// Rows that are indexed.
    pub closed spec fn row_count(&self) -> nat {
        self.rows@.dom().len()
    }

    /// A term leads to exactly the rows that have it.
    pub closed spec fn wf(&self) -> bool {
        &&& self.postings.wf()
        &&& self.rows.wf()
        &&& forall|key: u128| #[trigger]
            self.rows@.dom().contains(key) ==> key <= u32::MAX && ascending_terms(
                texts(self.rows@[key].spec_value()@),
            )
        &&& forall|row: u32, term: Seq<char>|
            #![trigger self.has_term(row, term)]
            #![trigger self.postings.rows(Key::Text(term)).contains(row)]
            self.has_term(row, term) <==> self.postings.rows(Key::Text(term)).contains(row)
    }

    /// The rows of a term.
    pub closed spec fn term_rows(&self, term: Seq<char>) -> Set<u32> {
        self.postings.rows(Key::Text(term))
    }

    /// A term leads to exactly the rows that have it.
    pub proof fn law_postings_mirror_rows(&self, row: u32, term: Seq<char>)
        requires
            self.wf(),
        ensures
            self.term_rows(term).contains(row) <==> self.has_term(row, term),
    {
    }

    /// Number of indexed rows.
    pub fn len(&self) -> (len: usize)
        requires
            self.wf(),
        ensures
            len == self.row_count(),
    {
        self.rows.len()
    }

    /// Statistics of the terms.
    pub fn shape(&self) -> (shape: PostingShape)
        requires
            self.wf(),
        ensures
            exists|keys: Seq<Key>| #[trigger]
                lists_keys(self.term_postings(), keys) && is_shape(
                    self.term_postings(),
                    keys,
                    true,
                    shape,
                ),
    {
        let shape = self.postings.shape(true);
        proof {
            let keys = choose|keys: Seq<Key>| #[trigger]
                lists_keys(self.postings, keys) && is_shape(self.postings, keys, true, shape);
            assert(lists_keys(self.term_postings(), keys));
        }
        shape
    }

    /// The rows of every term, by ascending term.
    pub fn materialized_postings(&self) -> (table: PostingTable)
        requires
            self.wf(),
        ensures
            table.wf(),
            forall|key: Key| #[trigger] table.entry(key) == self.term_postings().sealed_entry(key),
            forall|term: Seq<char>| #[trigger]
                table.rows(Key::Text(term)) == self.term_rows(term),
    {
        let table = self.postings.materialized();
        proof {
            assert forall|term: Seq<char>| #[trigger] table.rows(Key::Text(term)) == self.term_rows(
                term,
            ) by {
                assert(table.entry(Key::Text(term)) == self.postings.sealed_entry(Key::Text(term)));
                self.postings.law_sealing_keeps_plain_keys(Key::Text(term));
            }
        }
        table
    }

    /// The postings of the terms.
    pub closed spec fn term_postings(&self) -> Postings {
        self.postings
    }

    /// The postings of a term are its rows.
    pub proof fn law_term_postings(&self, term: Seq<char>)
        ensures
            self.term_postings().rows(Key::Text(term)) == self.term_rows(term),
    {
    }

    /// Takes the terms of a row away.
    #[verifier::spinoff_prover]
    pub fn remove(&mut self, row: u32)
        requires
            old(self).wf(),
        ensures
            final(self).wf(),
            final(self).row_count() <= old(self).row_count(),
            forall|term: Seq<char>| !#[trigger] final(self).has_term(row, term),
            forall|other: u32, term: Seq<char>|
                other != row ==> #[trigger] final(self).has_term(other, term) == old(
                    self).has_term(other, term),
    {
        let ghost before = *self;
        let terms: Vec<String> = match self.rows.get(row as u128) {
            Some(terms) => copy_terms(terms.value()),
            None => {
                return;
            },
        };
        proof {
            lemma_handle_faithful::<Vec<String>>();
        }
        for index in 0..terms.len()
            invariant
                before.wf(),
                before.rows@.dom().contains(row as u128),
                texts(terms@) == texts(before.rows@[row as u128].spec_value()@),
                self.postings.wf(),
                self.rows == before.rows,
                forall|term: Seq<char>, other: u32|
                    #![trigger self.postings.rows(Key::Text(term)).contains(other)]
                    self.postings.rows(Key::Text(term)).contains(other) <==> before.postings.rows(
                        Key::Text(term),
                    ).contains(other) && !(other == row && exists|i: int|
                        0 <= i < index && (#[trigger] terms@[i])@ == term),
        {
            let ghost middle = self.postings;
            let ghost word = terms@[index as int]@;
            let key = IndexKey::String(terms[index].clone());
            assert(key.key() == Key::Text(word));
            self.postings.put(key, row, false);
            proof {
                assert forall|term: Seq<char>, other: u32|
                    #![trigger self.postings.rows(Key::Text(term)).contains(other)]
                    self.postings.rows(Key::Text(term)).contains(other)
                        <==> before.postings.rows(Key::Text(term)).contains(other) && !(other == row
                        && exists|i: int|
                        0 <= i < index + 1 && (#[trigger] terms@[i])@ == term) by {
                    assert(middle.rows(Key::Text(term)).contains(other)
                        <==> before.postings.rows(Key::Text(term)).contains(other) && !(other == row
                        && exists|i: int| 0 <= i < index && (#[trigger] terms@[i])@ == term));
                    if term != word {
                        if alike(Key::Text(word), Key::Text(term)) {
                            law_plain_keys(Key::Text(word), Key::Text(term));
                        }
                        assert(self.postings.rows(Key::Text(term)) == middle.rows(Key::Text(term)));
                    }
                    if exists|i: int| 0 <= i < index && (#[trigger] terms@[i])@ == term {
                        let i = choose|i: int| 0 <= i < index && (#[trigger] terms@[i])@ == term;
                        assert(0 <= i < index + 1 && terms@[i]@ == term);
                    }
                    if term == word {
                        assert(0 <= index < index + 1 && terms@[index as int]@ == term);
                    }
                }
            }
        }
        let _ = self.rows.len();
        let _ = self.rows.remove(row as u128);
        proof {
            assert forall|other: u32, term: Seq<char>|
                #![trigger self.has_term(other, term)]
                #![trigger self.postings.rows(Key::Text(term)).contains(other)]
                (self.has_term(other, term) <==> self.postings.rows(Key::Text(term)).contains(
                    other,
                )) && (other != row ==> self.has_term(other, term) == before.has_term(
                    other,
                    term,
                )) by {
                assert(before.has_term(other, term) <==> before.postings.rows(
                    Key::Text(term),
                ).contains(other));
                if other == row && before.has_term(row, term) {
                    let words = texts(terms@);
                    let i = choose|i: int| 0 <= i < words.len() && words[i] == term;
                    assert(terms@[i]@ == term);
                }
            }
        }
    }

    /// Gives a row the terms of a text.
    pub fn upsert(&mut self, row: u32, text: &str)
        requires
            old(self).wf(),
            old(self).row_count() < usize::MAX,
        ensures
            final(self).wf(),
            final(self).row_count() <= old(self).row_count() + 1,
            forall|term: Seq<char>| #[trigger]
                final(self).has_term(row, term) <==> term_of(folded(text@), term),
            forall|other: u32, term: Seq<char>|
                other != row ==> #[trigger] final(self).has_term(other, term) == old(
                    self).has_term(other, term),
    {
        let terms = tokenize(text);
        self.put_terms(row, terms);
    }

    /// Gives a row these terms, where they are in ascending order, as they are listed of an index.
    pub fn restore_terms(&mut self, row: u32, terms: Vec<String>) -> (restored: bool)
        requires
            old(self).wf(),
            old(self).row_count() < usize::MAX,
        ensures
            final(self).wf(),
            restored == ascending_terms(texts(terms@)),
            !restored ==> *final(self) == *old(self),
            restored ==> {
                &&& final(self).row_count() <= old(self).row_count() + 1
                &&& forall|term: Seq<char>| #[trigger]
                    final(self).has_term(row, term) <==> texts(terms@).contains(term)
                &&& forall|other: u32, term: Seq<char>|
                    other != row ==> #[trigger] final(self).has_term(other, term) == old(
                        self).has_term(other, term)
            },
    {
        if !check_ascending_terms(&terms) {
            return false;
        }
        self.put_terms(row, terms);
        true
    }

    /// The terms of every row, by ascending row.
    pub fn row_terms(&self) -> (list: Vec<(u32, Vec<String>)>)
        requires
            self.wf(),
        ensures
            list@.len() == self.row_count(),
            forall|i: int, j: int|
                0 <= i < j < list@.len() ==> (#[trigger] list@[i]).0 < (#[trigger] list@[j]).0,
            forall|i: int| 0 <= i < list@.len() ==> ascending_terms(texts((#[trigger] list@[i]).1@)),
            forall|row: u32, term: Seq<char>| #[trigger]
                self.has_term(row, term) <==> exists|i: int|
                    0 <= i < list@.len() && (#[trigger] list@[i]).0 == row && texts(
                        list@[i].1@,
                    ).contains(term),
    {
        let entries = self.rows.iter();
        let mut list: Vec<(u32, Vec<String>)> = Vec::with_capacity(entries.len());
        for index in 0..entries.len()
            invariant
                self.wf(),
                forall|i: int|
                    0 <= i < entries@.len() ==> self.rows@.dom().contains((#[trigger] entries@[i]).0)
                        && self.rows@[entries@[i].0] == *entries@[i].1,
                list@.len() == index,
                forall|i: int|
                    0 <= i < index ==> (#[trigger] list@[i]).0 as u128 == entries@[i].0 && texts(
                        list@[i].1@,
                    ) == texts(entries@[i].1.spec_value()@),
        {
            assert(self.rows@.dom().contains(entries@[index as int].0));
            list.push((entries[index].0 as u32, copy_terms(entries[index].1.value())));
        }
        proof {
            assert forall|i: int, j: int| 0 <= i < j < list@.len() implies (#[trigger] list@[i]).0
                < (#[trigger] list@[j]).0 by {
                assert(entries@[i].0 < entries@[j].0);
            }
            assert forall|i: int| 0 <= i < list@.len() implies ascending_terms(
                texts((#[trigger] list@[i]).1@),
            ) by {
                assert(self.rows@.dom().contains(entries@[i].0));
            }
            assert forall|row: u32, term: Seq<char>| #[trigger]
                self.has_term(row, term) <==> exists|i: int|
                    0 <= i < list@.len() && (#[trigger] list@[i]).0 == row && texts(
                        list@[i].1@,
                    ).contains(term) by {
                if self.has_term(row, term) {
                    let i = choose|i: int|
                        0 <= i < entries@.len() && (#[trigger] entries@[i]).0 == row as u128;
                    assert(list@[i].0 == row);
                }
                if exists|i: int|
                    0 <= i < list@.len() && (#[trigger] list@[i]).0 == row && texts(
                        list@[i].1@,
                    ).contains(term) {
                    let i = choose|i: int|
                        0 <= i < list@.len() && (#[trigger] list@[i]).0 == row && texts(
                            list@[i].1@,
                        ).contains(term);
                    assert(self.rows@.dom().contains(entries@[i].0));
                }
            }
        }
        list
    }

    /// Gives a row these terms.
    #[verifier::rlimit(40)]
    #[verifier::spinoff_prover]
    fn put_terms(&mut self, row: u32, terms: Vec<String>)
        requires
            old(self).wf(),
            old(self).row_count() < usize::MAX,
            ascending_terms(texts(terms@)),
        ensures
            final(self).wf(),
            final(self).row_count() <= old(self).row_count() + 1,
            forall|term: Seq<char>| #[trigger]
                final(self).has_term(row, term) <==> texts(terms@).contains(term),
            forall|other: u32, term: Seq<char>|
                other != row ==> #[trigger] final(self).has_term(other, term) == old(
                    self).has_term(other, term),
    {
        self.remove(row);
        let ghost before = *self;
        proof {
            lemma_handle_faithful::<Vec<String>>();
        }
        for index in 0..terms.len()
            invariant
                before.wf(),
                forall|term: Seq<char>| !#[trigger] before.has_term(row, term),
                self.postings.wf(),
                self.rows == before.rows,
                forall|term: Seq<char>, other: u32|
                    #![trigger self.postings.rows(Key::Text(term)).contains(other)]
                    self.postings.rows(Key::Text(term)).contains(other) <==> before.postings.rows(
                        Key::Text(term),
                    ).contains(other) || (other == row && exists|i: int|
                        0 <= i < index && (#[trigger] terms@[i])@ == term),
        {
            let ghost middle = self.postings;
            let ghost word = terms@[index as int]@;
            let key = IndexKey::String(terms[index].clone());
            assert(key.key() == Key::Text(word));
            self.postings.put(key, row, true);
            proof {
                assert forall|term: Seq<char>, other: u32|
                    #![trigger self.postings.rows(Key::Text(term)).contains(other)]
                    self.postings.rows(Key::Text(term)).contains(other)
                        <==> before.postings.rows(Key::Text(term)).contains(other) || (other == row
                        && exists|i: int|
                        0 <= i < index + 1 && (#[trigger] terms@[i])@ == term) by {
                    assert(middle.rows(Key::Text(term)).contains(other)
                        <==> before.postings.rows(Key::Text(term)).contains(other) || (other == row
                        && exists|i: int| 0 <= i < index && (#[trigger] terms@[i])@ == term));
                    if term != word {
                        if alike(Key::Text(word), Key::Text(term)) {
                            law_plain_keys(Key::Text(word), Key::Text(term));
                        }
                        assert(self.postings.rows(Key::Text(term)) == middle.rows(Key::Text(term)));
                    }
                    if exists|i: int| 0 <= i < index && (#[trigger] terms@[i])@ == term {
                        let i = choose|i: int| 0 <= i < index && (#[trigger] terms@[i])@ == term;
                        assert(0 <= i < index + 1 && terms@[i]@ == term);
                    }
                    if term == word {
                        assert(0 <= index < index + 1 && terms@[index as int]@ == term);
                    }
                }
            }
        }
        let ghost words = texts(terms@);
        let ghost listed = terms@;
        let _ = self.rows.len();
        let _ = self.rows.insert(row as u128, Handle::new(terms));
        proof {
            assert forall|other: u32, term: Seq<char>|
                #![trigger self.has_term(other, term)]
                #![trigger self.postings.rows(Key::Text(term)).contains(other)]
                (self.has_term(other, term) <==> self.postings.rows(Key::Text(term)).contains(
                    other,
                )) && (other != row ==> self.has_term(other, term) == before.has_term(
                    other,
                    term,
                )) by {
                assert(before.has_term(other, term) <==> before.postings.rows(
                    Key::Text(term),
                ).contains(other));
                if other == row {
                    assert(!before.has_term(row, term));
                    if words.contains(term) {
                        let i = choose|i: int| 0 <= i < words.len() && words[i] == term;
                        assert(listed[i]@ == term);
                    }
                    if exists|i: int| 0 <= i < listed.len() && (#[trigger] listed[i])@ == term {
                        let i = choose|i: int|
                            0 <= i < listed.len() && (#[trigger] listed[i])@ == term;
                        assert(words[i] == term);
                    }
                }
            }
        }
    }

    /// The rows that have every term of the query. A query without a term has none.
    pub fn search(&self, query: &str) -> (result: RoaringBitmap)
        requires
            self.wf(),
        ensures
            forall|row: u32| #[trigger]
                bitmap_rows(result).contains(row) <==> answers(*self, folded(query@), row),
    {
        let terms = tokenize(query);
        let ghost words = texts(terms@);
        let ghost text = folded(query@);
        if terms.len() == 0 {
            let none = empty_bitmap();
            proof {
                assert forall|row: u32| !answers(*self, text, row) by {
                    if answers(*self, text, row) {
                        let term = choose|term: Seq<char>| #[trigger] term_of(text, term);
                        assert(words.contains(term));
                    }
                }
            }
            return none;
        }
        let mut result = match self.postings.get(&IndexKey::String(terms[0].clone())) {
            Some(rows) => rows,
            None => {
                let none = empty_bitmap();
                proof {
                    assert(words[0] == terms@[0]@);
                    lemma_term_without_rows(*self, text, words, 0);
                }
                return none;
            },
        };
        assert(words[0] == terms@[0]@);
        for index in 1..terms.len()
            invariant
                self.wf(),
                words == texts(terms@),
                terms.len() >= 1,
                text == folded(query@),
                forall|term: Seq<char>| #[trigger] words.contains(term) <==> term_of(text, term),
                forall|row: u32| #[trigger]
                    bitmap_rows(result).contains(row) <==> forall|i: int|
                        0 <= i < index ==> self.postings.rows(
                            Key::Text(#[trigger] words[i]),
                        ).contains(row),
        {
            let ghost before = bitmap_rows(result);
            assert(words[index as int] == terms@[index as int]@);
            match self.postings.get(&IndexKey::String(terms[index].clone())) {
                Some(rows) => {
                    intersect(&mut result, &rows);
                    proof {
                        assert forall|row: u32| #[trigger]
                            bitmap_rows(result).contains(row) <==> forall|i: int|
                                0 <= i < index + 1 ==> self.postings.rows(
                                    Key::Text(#[trigger] words[i]),
                                ).contains(row) by {
                            assert(before.contains(row) <==> forall|i: int|
                                0 <= i < index ==> self.postings.rows(
                                    Key::Text(#[trigger] words[i]),
                                ).contains(row));
                            if bitmap_rows(result).contains(row) {
                                assert(before.contains(row));
                            } else if forall|i: int|
                                0 <= i < index + 1 ==> self.postings.rows(
                                    Key::Text(#[trigger] words[i]),
                                ).contains(row) {
                                assert(self.postings.rows(
                                    Key::Text(words[index as int]),
                                ).contains(row));
                                assert(before.contains(row));
                            }
                        }
                    }
                },
                None => {
                    let none = empty_bitmap();
                    proof {
                        lemma_term_without_rows(*self, text, words, index as int);
                    }
                    return none;
                },
            }
        }
        proof {
            assert forall|row: u32| #[trigger]
                bitmap_rows(result).contains(row) <==> answers(*self, text, row) by {
                if bitmap_rows(result).contains(row) {
                    assert(words.contains(words[0]));
                    assert(term_of(text, words[0]));
                    assert forall|term: Seq<char>| #[trigger]
                        term_of(text, term) implies self.has_term(row, term) by {
                        assert(words.contains(term));
                        let i = choose|i: int| 0 <= i < words.len() && words[i] == term;
                        assert(self.postings.rows(Key::Text(words[i])).contains(row));
                    }
                }
                if answers(*self, text, row) {
                    assert forall|i: int| 0 <= i < words.len() implies self.postings.rows(
                        Key::Text(#[trigger] words[i]),
                    ).contains(row) by {
                        assert(words.contains(words[i]));
                        assert(self.has_term(row, words[i]));
                    }
                }
            }
        }
        result
    }

    /// The first rows of a term in ascending order, at most `limit`.
    pub fn bounded_posting_rows(&self, term: &str, limit: usize) -> (rows: Vec<u32>)
        requires
            self.wf(),
        ensures
            first_of(rows@, self.term_rows(term@), limit as int),
    {
        let key = IndexKey::String(term.to_owned());
        assert(key.key() == Key::Text(term@));
        self.postings.get_bounded(&key, limit)
    }

    /// Writes the changes into a new base. Every row keeps its terms.
    pub fn seal(&mut self)
        requires
            old(self).wf(),
        ensures
            final(self).wf(),
            final(self).term_postings().is_sealed(),
            forall|key: Key| #[trigger]
                final(self).term_postings().base_entry(key) == old(
                    self,
                ).term_postings().sealed_entry(key),
            final(self).row_count() == old(self).row_count(),
            forall|row: u32, term: Seq<char>| #[trigger]
                final(self).has_term(row, term) == old(self).has_term(row, term),
    {
        let ghost before = *self;
        self.postings.seal();
        proof {
            assert forall|row: u32, term: Seq<char>|
                #![trigger self.has_term(row, term)]
                #![trigger self.postings.rows(Key::Text(term)).contains(row)]
                self.has_term(row, term) <==> self.postings.rows(Key::Text(term)).contains(
                    row,
                ) by {
                assert(before.has_term(row, term) <==> before.postings.rows(
                    Key::Text(term),
                ).contains(row));
            }
        }
    }
}

/// The text has a term, and the row has all of them.
pub open spec fn answers(index: TextIndex, text: Seq<char>, row: u32) -> bool {
    &&& exists|term: Seq<char>| #[trigger] term_of(text, term)
    &&& forall|term: Seq<char>| #[trigger] term_of(text, term) ==> index.has_term(row, term)
}

proof fn lemma_term_without_rows(
    index: TextIndex,
    text: Seq<char>,
    words: Seq<Seq<char>>,
    place: int,
)
    requires
        index.wf(),
        0 <= place < words.len(),
        forall|term: Seq<char>| #[trigger] words.contains(term) <==> term_of(text, term),
        index.postings.rows(Key::Text(words[place])) == Set::<u32>::empty(),
    ensures
        forall|row: u32| !#[trigger] answers(index, text, row),
{
    assert forall|row: u32| !#[trigger] answers(index, text, row) by {
        if answers(index, text, row) {
            assert(words.contains(words[place]));
            assert(index.has_term(row, words[place]));
            assert(!index.postings.rows(Key::Text(words[place])).contains(row));
        }
    }
}

fn copy_terms(terms: &Vec<String>) -> (copy: Vec<String>)
    ensures
        texts(copy@) == texts(terms@),
{
    let mut copy: Vec<String> = Vec::with_capacity(terms.len());
    for index in 0..terms.len()
        invariant
            copy.len() == index,
            forall|i: int| 0 <= i < index ==> (#[trigger] copy@[i])@ == terms@[i]@,
    {
        copy.push(terms[index].clone());
    }
    assert(texts(copy@) =~= texts(terms@));
    copy
}

/// The row is one of the first `budget` rows of a set.
pub open spec fn among_first(rows: Set<u32>, budget: int, row: u32) -> bool {
    rows.contains(row) && rows.filter(|other: u32| other < row).len() < budget
}

/// A listing of the first rows holds exactly those.
proof fn lemma_first_rows(list: Seq<u32>, rows: Set<u32>, budget: int, row: u32)
    requires
        first_of(list, rows, budget),
    ensures
        list.contains(row) <==> among_first(rows, budget, row),
{
    let smaller = rows.filter(|other: u32| other < row);
    lemma_rows_finite(smaller);
    assert(list.no_duplicates()) by {
        assert forall|i: int, j: int|
            0 <= i < list.len() && 0 <= j < list.len() && i != j implies list[i] != list[j] by {
            if i < j {
                assert(list[i] < list[j]);
            } else {
                assert(list[j] < list[i]);
            }
        }
    }
    if list.contains(row) {
        let k = choose|k: int| 0 <= k < list.len() && list[k] == row;
        let head = list.take(k);
        assert(head.no_duplicates());
        head.unique_seq_to_set();
        assert(head.to_set() =~= smaller) by {
            assert forall|other: u32| head.to_set().contains(other) <==> smaller.contains(other) by {
                if head.contains(other) {
                    let i = choose|i: int| 0 <= i < head.len() && head[i] == other;
                    assert(list[i] == other);
                    assert(list[i] < list[k]);
                }
                if smaller.contains(other) {
                    if !list.contains(other) {
                        assert(list[k] < other);
                    }
                    let i = choose|i: int| 0 <= i < list.len() && list[i] == other;
                    if i > k {
                        assert(list[k] < list[i]);
                    }
                    assert(head[i] == other);
                }
            }
        }
    } else if rows.contains(row) {
        list.unique_seq_to_set();
        assert(list.to_set().subset_of(smaller)) by {
            assert forall|other: u32| list.to_set().contains(other) implies smaller.contains(
                other,
            ) by {
                let i = choose|i: int| 0 <= i < list.len() && list[i] == other;
                assert(list[i] < row);
            }
        }
        vstd::set_lib::lemma_len_subset(list.to_set(), smaller);
    }
}

/// How many of the first terms have the row among their first rows.
pub open spec fn term_score(
    index: TextIndex,
    words: Seq<Seq<char>>,
    count: int,
    budget: int,
    row: u32,
) -> int
    decreases count,
{
    if count <= 0 {
        0
    } else {
        term_score(index, words, count - 1, budget, row) + if among_first(
            index.term_rows(words[count - 1]),
            budget,
            row,
        ) {
            1int
        } else {
            0
        }
    }
}

proof fn lemma_score_bounds(
    index: TextIndex,
    words: Seq<Seq<char>>,
    count: int,
    budget: int,
    row: u32,
)
    requires
        0 <= count,
    ensures
        0 <= term_score(index, words, count, budget, row) <= count,
    decreases count,
{
    if count > 0 {
        lemma_score_bounds(index, words, count - 1, budget, row);
    }
}

/// The rows with a score, each with it.
pub open spec fn scores_of(
    index: TextIndex,
    words: Seq<Seq<char>>,
    count: int,
    budget: int,
    scores: Map<u128, u32>,
) -> bool {
    &&& forall|key: u128| #[trigger] scores.dom().contains(key) ==> key <= u32::MAX
    &&& forall|row: u32|
        (#[trigger] scores.dom().contains(row as u128)) == (term_score(
            index,
            words,
            count,
            budget,
            row,
        ) > 0)
    &&& forall|row: u32| #[trigger]
        scores.dom().contains(row as u128) ==> scores[row as u128] == term_score(
            index,
            words,
            count,
            budget,
            row,
        )
}

/// Rows ranked by how many of the first terms of a query they have, as far as the terms lead to them
/// within four times the limit.
pub open spec fn ranked_answer(
    index: TextIndex,
    query: Seq<char>,
    limit: int,
    result: Seq<(u32, u32)>,
) -> bool {
    exists|words: Seq<Seq<char>>, scores: Map<u128, u32>|
        #![trigger ascending_terms(words), ranking(result, scores, limit)]
        {
            &&& ascending_terms(words)
            &&& forall|term: Seq<char>| #[trigger]
                words.contains(term) <==> term_of(folded(query), term)
            &&& scores_of(
                index,
                words,
                spec_min(words.len() as int, 32),
                saturated(limit * 4),
                scores,
            )
            &&& ranking(result, scores, limit)
        }
}

/// The terms of a set that a row has.
pub open spec fn terms_held(index: TextIndex, terms: Set<Seq<char>>, row: u32) -> Set<Seq<char>> {
    terms.filter(|term: Seq<char>| index.has_term(row, term))
}

/// For a query of at most 32 terms, none of which leads to more than four times as many rows as are
/// wanted: the score of a row is the number of terms of the query that it has. More terms come first, then
/// lower rows. A row with a term of the query is returned, or as many rows are that rank before it.
pub proof fn law_ranked_rows_count_their_terms(
    index: TextIndex,
    query: Seq<char>,
    limit: int,
    result: Seq<(u32, u32)>,
    terms: Set<Seq<char>>,
)
    requires
        index.wf(),
        0 < limit,
        limit * 4 <= usize::MAX,
        ranked_answer(index, query, limit, result),
        terms.finite(),
        terms.len() <= 32,
        forall|term: Seq<char>| #[trigger]
            terms.contains(term) <==> term_of(folded(query), term),
        forall|term: Seq<char>| #[trigger]
            terms.contains(term) ==> index.term_rows(term).len() <= limit * 4,
    ensures
        result.len() <= limit,
        forall|i: int|
            0 <= i < result.len() ==> (#[trigger] result[i]).1 == terms_held(
                index,
                terms,
                result[i].0,
            ).len() && result[i].1 > 0,
        forall|i: int, j: int|
            #![trigger result[i], result[j]]
            0 <= i < j < result.len() ==> result[i].1 > result[j].1 || result[i].1 == result[j].1
                && result[i].0 < result[j].0,
        forall|row: u32, term: Seq<char>|
            terms.contains(term) && #[trigger] index.has_term(row, term) ==> (exists|i: int|
                0 <= i < result.len() && (#[trigger] result[i]).0 == row) || (result.len() == limit
                && forall|i: int|
                0 <= i < result.len() ==> (#[trigger] result[i]).1 > terms_held(
                    index,
                    terms,
                    row,
                ).len() || result[i].1 == terms_held(index, terms, row).len() && result[i].0 < row),
{
    let (words, scores) = choose|words: Seq<Seq<char>>, scores: Map<u128, u32>|
        #![trigger ascending_terms(words), ranking(result, scores, limit)]
        {
            &&& ascending_terms(words)
            &&& forall|term: Seq<char>| #[trigger]
                words.contains(term) <==> term_of(folded(query), term)
            &&& scores_of(
                index,
                words,
                spec_min(words.len() as int, 32),
                saturated(limit * 4),
                scores,
            )
            &&& ranking(result, scores, limit)
        };
    crate::index::terms::lemma_distinct_terms(words);
    words.unique_seq_to_set();
    assert(words.to_set() =~= terms);
    let count = words.len() as int;
    assert forall|i: int| 0 <= i < words.len() implies index.term_rows(#[trigger] words[i]).len()
        <= limit * 4 by {
        assert(words.contains(words[i]));
        assert(terms.contains(words[i]));
    }
    assert forall|row: u32| #[trigger]
        term_score(index, words, count, limit * 4, row) == terms_held(index, terms, row).len() by {
        lemma_score_is_terms(index, words, count, limit * 4, row);
        assert(words.take(count) =~= words);
    }
    assert forall|i: int| 0 <= i < result.len() implies (#[trigger] result[i]).1 == terms_held(
        index,
        terms,
        result[i].0,
    ).len() && result[i].1 > 0 by {
        assert(scores.dom().contains(result[i].0 as u128));
        assert(term_score(index, words, count, limit * 4, result[i].0) == terms_held(
            index,
            terms,
            result[i].0,
        ).len());
    }
    assert forall|row: u32, term: Seq<char>|
        terms.contains(term) && #[trigger] index.has_term(row, term) implies (exists|i: int|
        0 <= i < result.len() && (#[trigger] result[i]).0 == row) || (result.len() == limit
        && forall|i: int|
        0 <= i < result.len() ==> (#[trigger] result[i]).1 > terms_held(index, terms, row).len()
            || result[i].1 == terms_held(index, terms, row).len() && result[i].0 < row) by {
        let held = terms_held(index, terms, row);
        assert(held.contains(term));
        assert(held.finite());
        assert(held.len() > 0) by {
            if held.len() == 0 {
                assert(held =~= Set::empty());
            }
        }
        assert(term_score(index, words, count, limit * 4, row) == held.len());
        assert(scores.dom().contains(row as u128));
        if !ranked(result, row) {
            assert forall|i: int| 0 <= i < result.len() implies (#[trigger] result[i]).1
                > held.len() || result[i].1 == held.len() && result[i].0 < row by {
                assert(rank(result[i].0, result[i].1) < rank(row, scores[row as u128]));
            }
        }
    }
    assert forall|i: int, j: int|
        #![trigger result[i], result[j]]
        0 <= i < j < result.len() implies result[i].1 > result[j].1 || result[i].1 == result[j].1
        && result[i].0 < result[j].0 by {
        assert(rank(result[i].0, result[i].1) < rank(result[j].0, result[j].1));
    }
}

/// Whatever the query, no row is said to have more terms than there are, and a row of the answer has a
/// term of the query.
pub proof fn law_ranked_rows_have_a_term(
    index: TextIndex,
    query: Seq<char>,
    limit: int,
    result: Seq<(u32, u32)>,
    place: int,
)
    requires
        index.wf(),
        ranked_answer(index, query, limit, result),
        0 <= place < result.len(),
    ensures
        0 < result[place].1 <= 32,
        exists|term: Seq<char>| #[trigger]
            term_of(folded(query), term) && index.has_term(result[place].0, term),
{
    let (words, scores) = choose|words: Seq<Seq<char>>, scores: Map<u128, u32>|
        #![trigger ascending_terms(words), ranking(result, scores, limit)]
        {
            &&& ascending_terms(words)
            &&& forall|term: Seq<char>| #[trigger]
                words.contains(term) <==> term_of(folded(query), term)
            &&& scores_of(
                index,
                words,
                spec_min(words.len() as int, 32),
                saturated(limit * 4),
                scores,
            )
            &&& ranking(result, scores, limit)
        };
    let row = result[place].0;
    let count = spec_min(words.len() as int, 32);
    assert(scores.dom().contains(row as u128));
    lemma_score_bounds(index, words, count, saturated(limit * 4), row);
    let i = lemma_scored_term(index, words, count, saturated(limit * 4), row);
    assert(words.contains(words[i]));
    index.law_postings_mirror_rows(row, words[i]);
}

proof fn lemma_scored_term(
    index: TextIndex,
    words: Seq<Seq<char>>,
    count: int,
    budget: int,
    row: u32,
) -> (place: int)
    requires
        term_score(index, words, count, budget, row) > 0,
    ensures
        0 <= place < count,
        index.term_rows(words[place]).contains(row),
    decreases count,
{
    if among_first(index.term_rows(words[count - 1]), budget, row) {
        count - 1
    } else {
        lemma_scored_term(index, words, count - 1, budget, row)
    }
}

/// Where every term leads to few rows, the score counts the terms that the row has.
proof fn lemma_score_is_terms(
    index: TextIndex,
    words: Seq<Seq<char>>,
    count: int,
    budget: int,
    row: u32,
)
    requires
        index.wf(),
        0 <= count <= words.len(),
        words.no_duplicates(),
        forall|i: int|
            0 <= i < words.len() ==> index.term_rows(#[trigger] words[i]).len() <= budget,
    ensures
        terms_held(index, words.take(count).to_set(), row).finite(),
        term_score(index, words, count, budget, row) == terms_held(
            index,
            words.take(count).to_set(),
            row,
        ).len(),
    decreases count,
{
    let now = words.take(count).to_set();
    let held = terms_held(index, now, row);
    if count == 0 {
        assert(held =~= Set::empty());
    } else {
        lemma_score_is_terms(index, words, count - 1, budget, row);
        let before = words.take(count - 1).to_set();
        let word = words[count - 1];
        let rows = index.term_rows(word);
        index.law_postings_mirror_rows(row, word);
        if rows.contains(row) {
            let smaller = rows.filter(|other: u32| other < row);
            lemma_rows_finite(rows);
            assert(smaller.subset_of(rows.remove(row)));
            vstd::set_lib::lemma_len_subset(smaller, rows.remove(row));
        }
        let head = words.take(count);
        let head_before = words.take(count - 1);
        assert(!before.contains(word)) by {
            if before.contains(word) {
                let i = choose|i: int| 0 <= i < head_before.len() && head_before[i] == word;
                assert(words[i] == words[count - 1]);
            }
        }
        assert(now =~= before.insert(word)) by {
            assert forall|term: Seq<char>| now.contains(term) <==> before.insert(word).contains(
                term,
            ) by {
                if now.contains(term) {
                    let i = choose|i: int| 0 <= i < head.len() && head[i] == term;
                    if i < count - 1 {
                        assert(head_before[i] == term);
                    }
                }
                if before.contains(term) {
                    let i = choose|i: int| 0 <= i < head_before.len() && head_before[i] == term;
                    assert(head[i] == term);
                }
                if term == word {
                    assert(head[count - 1] == term);
                }
            }
        }
        let earlier = terms_held(index, before, row);
        if rows.contains(row) {
            assert(held =~= earlier.insert(word));
        } else {
            assert(held =~= earlier);
        }
    }
}

impl TextIndex {
    /// A deterministic bounded ranking. Work is capped by query terms and posting rows.
    #[verifier::rlimit(60)]
    #[verifier::spinoff_prover]
    pub fn bounded_ranked_search(&self, query: &str, limit: usize) -> (result: Vec<(u32, u32)>)
        requires
            self.wf(),
        ensures
            limit == 0 ==> result@.len() == 0,
            limit > 0 ==> ranked_answer(*self, query@, limit as int, result@),
    {
        if limit == 0 {
            return Vec::new();
        }
        let budget: usize = saturating_product(limit, 4);
        let terms = tokenize(query);
        let ghost words = texts(terms@);
        let count: usize = if terms.len() <= 32 {
            terms.len()
        } else {
            32
        };
        let mut scores: Vec<(u32, u32)> = Vec::new();
        assert(score_map(scores@).dom() =~= Set::<u128>::empty());
        for index in 0..count
            invariant
                self.wf(),
                count <= terms.len(),
                count <= 32,
                words == texts(terms@),
                ascending_scores(scores@),
                scores_of(*self, words, index as int, budget as int, score_map(scores@)),
        {
            let rows = self.bounded_posting_rows(terms[index].as_str(), budget);
            let ghost before = score_map(scores@);
            let ghost word = words[index as int];
            assert(word == terms@[index as int]@);
            for place in 0..rows.len()
                invariant
                    index < count <= 32,
                    ascending_scores(scores@),
                    first_of(rows@, self.term_rows(word), budget as int),
                    scores_of(*self, words, index as int, budget as int, before),
                    forall|key: u128| #[trigger] score_map(scores@).dom().contains(key)
                        ==> key <= u32::MAX,
                    forall|row: u32|
                        (#[trigger] score_map(scores@).dom().contains(row as u128))
                            == (before.dom().contains(
                            row as u128,
                        ) || listed_before(rows@, place as int, row)),
                    forall|row: u32| #[trigger]
                        score_map(scores@).dom().contains(row as u128)
                            ==> score_map(scores@)[row as u128] == (
                        if before.dom().contains(row as u128) {
                            before[row as u128] as int
                        } else {
                            0
                        }) + (if listed_before(rows@, place as int, row) {
                            1int
                        } else {
                            0
                        }),
            {
                let row: u32 = rows[place];
                let ghost middle = score_map(scores@);
                assert(!listed_before(rows@, place as int, row)) by {
                    if listed_before(rows@, place as int, row) {
                        let i = choose|i: int| 0 <= i < place && #[trigger] rows@[i] == row;
                        assert(rows@[i] < rows@[place as int]);
                    }
                }
                proof {
                    lemma_score_bounds(*self, words, index as int, budget as int, row);
                }
                add_score(&mut scores, row, 1);
                proof {
                    assert forall|other: u32|
                        (#[trigger] score_map(scores@).dom().contains(other as u128)) == (
                        before.dom().contains(other as u128) || listed_before(
                            rows@,
                            place + 1,
                            other,
                        )) && (score_map(scores@).dom().contains(other as u128)
                            ==> score_map(scores@)[other as u128] == (
                        if before.dom().contains(other as u128) {
                            before[other as u128] as int
                        } else {
                            0
                        }) + (if listed_before(rows@, place + 1, other) {
                            1int
                        } else {
                            0
                        })) by {
                        lemma_listed_step(rows@, place as int, other);
                        assert(middle.dom().contains(other as u128) == (before.dom().contains(
                            other as u128,
                        ) || listed_before(rows@, place as int, other)));
                        if other != row {
                            assert(other as u128 != row as u128);
                        }
                    }
                }
            }
            proof {
                assert forall|row: u32|
                    (#[trigger] score_map(scores@).dom().contains(row as u128)) == (term_score(
                        *self,
                        words,
                        index + 1,
                        budget as int,
                        row,
                    ) > 0) && (score_map(scores@).dom().contains(row as u128)
                        ==> score_map(scores@)[row as u128]
                        == term_score(*self, words, index + 1, budget as int, row)) by {
                    lemma_first_rows(rows@, self.term_rows(word), budget as int, row);
                    lemma_score_bounds(*self, words, index as int, budget as int, row);
                    assert(before.dom().contains(row as u128) == (term_score(
                        *self,
                        words,
                        index as int,
                        budget as int,
                        row,
                    ) > 0));
                    if rows@.contains(row) {
                        let i = choose|i: int| 0 <= i < rows@.len() && rows@[i] == row;
                        assert(listed_before(rows@, rows@.len() as int, row));
                    }
                    if listed_before(rows@, rows@.len() as int, row) {
                        let i = choose|i: int| 0 <= i < rows@.len() && #[trigger] rows@[i] == row;
                        assert(rows@.contains(row));
                    }
                }
            }
        }
        rank_rows(&scores, limit)
    }
}

spec fn listed_before(rows: Seq<u32>, count: int, row: u32) -> bool {
    exists|i: int| 0 <= i < count && #[trigger] rows[i] == row
}

proof fn lemma_listed_step(rows: Seq<u32>, count: int, row: u32)
    requires
        0 <= count < rows.len(),
    ensures
        listed_before(rows, count + 1, row) <==> listed_before(rows, count, row) || rows[count]
            == row,
{
    if listed_before(rows, count + 1, row) {
        let i = choose|i: int| 0 <= i < count + 1 && #[trigger] rows[i] == row;
        if i < count {
            assert(listed_before(rows, count, row));
        }
    }
    if listed_before(rows, count, row) {
        let i = choose|i: int| 0 <= i < count && #[trigger] rows[i] == row;
        assert(0 <= i < count + 1 && rows[i] == row);
    }
    if rows[count] == row {
        assert(0 <= count < count + 1 && rows[count] == row);
    }
}

/// A search asks for every word. A row that answers a text has each of its terms, so a text with more
/// terms finds no row that one with fewer does not.
pub proof fn law_searches_need_every_term(
    index: TextIndex,
    fewer: Seq<char>,
    more: Seq<char>,
    term: Seq<char>,
    row: u32,
)
    requires
        term_of(fewer, term),
        forall|other: Seq<char>| #[trigger] term_of(fewer, other) ==> term_of(more, other),
    ensures
        answers(index, more, row) ==> answers(index, fewer, row),
        answers(index, more, row) ==> index.has_term(row, term),
        (forall|other: Seq<char>| #[trigger] term_of(more, other) ==> index.has_term(row, other))
            ==> answers(index, more, row),
{
}

/// A text without a term finds nothing.
pub proof fn law_searches_without_a_term(index: TextIndex, text: Seq<char>, row: u32)
    requires
        forall|term: Seq<char>| !#[trigger] term_of(text, term),
    ensures
        !answers(index, text, row),
{
}

} // verus!
