//! Exact statistics of the query's terms: how often each occurs, and the
//! distinct terms in the order of their first occurrence.

use vstd::prelude::*;
use vstd::seq_lib::*;
use crate::text::views_of;

verus! {

/// How often `word` occurs in `terms`.
pub open spec fn count_of(terms: Seq<Seq<char>>, word: Seq<char>) -> nat {
    terms.to_multiset().count(word)
}

/// The distinct items of a sequence, each at the place of its first occurrence.
pub open spec fn distinct(items: Seq<Seq<char>>) -> Seq<Seq<char>>
    decreases items.len(),
{
    if items.len() == 0 {
        Seq::empty()
    } else if items.drop_last().contains(items.last()) {
        distinct(items.drop_last())
    } else {
        distinct(items.drop_last()).push(items.last())
    }
}

/// The sum, over the words of `keys`, of their number of occurrences in `terms`.
pub open spec fn total_count(terms: Seq<Seq<char>>, keys: Seq<Seq<char>>) -> nat
    decreases keys.len(),
{
    if keys.len() == 0 {
        0
    } else {
        total_count(terms, keys.drop_last()) + count_of(terms, keys.last())
    }
}

/// The distinct items hold exactly the items of the sequence, none of them twice.
pub proof fn lemma_distinct(items: Seq<Seq<char>>)
    ensures
        distinct(items).no_duplicates(),
        forall|w: Seq<char>| distinct(items).contains(w) <==> items.contains(w),
        distinct(items).len() <= items.len(),
    decreases items.len(),
{
    if items.len() > 0 {
        let front = items.drop_last();
        let last = items.last();
        lemma_distinct(front);
        assert(items =~= front.push(last));
        assert forall|w: Seq<char>| distinct(items).contains(w) <==> items.contains(w) by {
            if items.contains(w) {
                let i = choose|i: int| 0 <= i < items.len() && items[i] == w;
                if i < front.len() {
                    assert(front[i] == w);
                    assert(front.contains(w));
                }
            }
            if front.contains(w) {
                let i = choose|i: int| 0 <= i < front.len() && front[i] == w;
                assert(items[i] == w);
            }
            if front.contains(last) {
            } else {
                let d = distinct(front);
                assert(d.push(last)[d.len() as int] == last);
                if d.push(last).contains(w) {
                    let i = choose|i: int| 0 <= i < d.push(last).len() && d.push(last)[i] == w;
                    if i < d.len() {
                        assert(d[i] == w);
                        assert(d.contains(w));
                    }
                }
                if d.contains(w) {
                    let i = choose|i: int| 0 <= i < d.len() && d[i] == w;
                    assert(d.push(last)[i] == w);
                }
                assert(items[items.len() - 1] == last);
            }
        }
    }
}

/// One more term adds one to the count of that term and nothing to the others.
pub proof fn lemma_count_push(terms: Seq<Seq<char>>, term: Seq<char>, word: Seq<char>)
    ensures
        count_of(terms.push(term), word) == count_of(terms, word) + if term == word {
            1nat
        } else {
            0nat
        },
{
    broadcast use to_multiset_build;

}

/// A word that does not occur has count zero, and one that occurs has a positive count.
pub proof fn lemma_count_contains(terms: Seq<Seq<char>>, word: Seq<char>)
    ensures
        terms.contains(word) <==> count_of(terms, word) > 0,
{
    broadcast use to_multiset_contains;

}

proof fn lemma_total_push(terms: Seq<Seq<char>>, term: Seq<char>, keys: Seq<Seq<char>>)
    ensures
        total_count(terms.push(term), keys) == total_count(terms, keys) + count_of(keys, term),
    decreases keys.len(),
{
    if keys.len() == 0 {
        lemma_count_contains(keys, term);
    } else {
        let front = keys.drop_last();
        lemma_total_push(terms, term, front);
        lemma_count_push(terms, term, keys.last());
        assert(keys =~= front.push(keys.last()));
        lemma_count_push(front, keys.last(), term);
    }
}

proof fn lemma_count_in_distinct(keys: Seq<Seq<char>>, word: Seq<char>)
    requires
        keys.no_duplicates(),
    ensures
        count_of(keys, word) == if keys.contains(word) {
            1nat
        } else {
            0nat
        },
    decreases keys.len(),
{
    if keys.len() == 0 {
        lemma_count_contains(keys, word);
    } else {
        let front = keys.drop_last();
        let last = keys.last();
        assert(keys =~= front.push(last));
        assert(front.no_duplicates());
        lemma_count_in_distinct(front, word);
        lemma_count_push(front, last, word);
        lemma_count_contains(keys, word);
        lemma_count_contains(front, word);
        if last == word && front.contains(word) {
            let i = choose|i: int| 0 <= i < front.len() && front[i] == word;
            assert(keys[i] == keys[keys.len() - 1]);
        }
    }
}

/// The occurrence counts of the distinct terms of a query add up to the
/// number of its terms: as fractions of that number, the term frequencies of
/// a query that has a term add up to one.
pub proof fn lemma_frequencies_sum_to_one(terms: Seq<Seq<char>>)
    ensures
        total_count(terms, distinct(terms)) == terms.len(),
    decreases terms.len(),
{
    if terms.len() > 0 {
        let front = terms.drop_last();
        let last = terms.last();
        assert(terms =~= front.push(last));
        lemma_frequencies_sum_to_one(front);
        lemma_distinct(front);
        lemma_total_push(front, last, distinct(front));
        lemma_count_in_distinct(distinct(front), last);
        if !front.contains(last) {
            lemma_count_push(front, last, last);
            lemma_count_contains(front, last);
            assert(distinct(terms).drop_last() =~= distinct(front));
        }
    }
}

/// Whether `word` is among `words`.
pub fn contains_term(words: &Vec<String>, word: &String) -> (r: bool)
    ensures
        r == views_of(words@).contains(word@),
{
    let mut i: usize = 0;
    while i < words.len()
        invariant
            i <= words.len(),
            forall|j: int| 0 <= j < i ==> views_of(words@)[j] != word@,
        decreases words.len() - i,
    {
        if words[i] == *word {
            assert(views_of(words@)[i as int] == word@);
            return true;
        }
        i += 1;
    }
    false
}

/// Counts the occurrences of `word` among `terms`.
pub fn count_term(terms: &Vec<String>, word: &String) -> (r: usize)
    ensures
        r == count_of(views_of(terms@), word@),
{
    let mut count: usize = 0;
    let mut i: usize = 0;
    proof {
        assert(views_of(terms@).take(0) =~= Seq::<Seq<char>>::empty());
        lemma_count_contains(views_of(terms@).take(0), word@);
    }
    while i < terms.len()
        invariant
            i <= terms.len(),
            count <= i,
            count == count_of(views_of(terms@).take(i as int), word@),
        decreases terms.len() - i,
    {
        proof {
            let all = views_of(terms@);
            assert(all.take(i + 1) =~= all.take(i as int).push(all[i as int]));
            lemma_count_push(all.take(i as int), all[i as int], word@);
        }
        if terms[i] == *word {
            count += 1;
        }
        i += 1;
    }
    assert(views_of(terms@).take(terms.len() as int) =~= views_of(terms@));
    count
}

/// The distinct terms of a query, each at the place of its first occurrence:
/// the set of terms that the index is asked for.
pub fn distinct_terms(terms: &Vec<String>) -> (r: Vec<String>)
    ensures
        views_of(r@) == distinct(views_of(terms@)),
{
    let mut found: Vec<String> = Vec::new();
    let mut i: usize = 0;
    proof {
        assert(views_of(terms@).take(0) =~= Seq::<Seq<char>>::empty());
        assert(views_of(found@) =~= Seq::<Seq<char>>::empty());
    }
    while i < terms.len()
        invariant
            i <= terms.len(),
            views_of(found@) == distinct(views_of(terms@).take(i as int)),
        decreases terms.len() - i,
    {
        proof {
            let all = views_of(terms@);
            assert(all.take(i + 1).drop_last() =~= all.take(i as int));
            assert(all.take(i + 1).last() == terms@[i as int]@);
            lemma_distinct(all.take(i as int));
        }
        if !contains_term(&found, &terms[i]) {
            let ghost before = views_of(found@);
            found.push(terms[i].clone());
            assert(views_of(found@) =~= before.push(terms@[i as int]@));
        }
        i += 1;
    }
    assert(views_of(terms@).take(terms.len() as int) =~= views_of(terms@));
    found
}

} // verus!
