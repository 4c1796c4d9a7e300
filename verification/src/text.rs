//! Query normalisation: lowercase, drop ASCII punctuation, split on white space.

use vstd::prelude::*;
use vstd::string::*;

verus! {

/// The lowercase form that `str::to_lowercase` gives to a text.
pub uninterp spec fn lowercased(text: Seq<char>) -> Seq<char>;

/// Whether a character carries the Unicode `White_Space` property, as
/// `char::is_whitespace` reports it.
pub uninterp spec fn is_white_space(c: char) -> bool;

/// The ASCII punctuation characters: `!`..=`/`, `:`..=`@`, `[`..=`` ` `` and `{`..=`~`.
pub open spec fn is_punctuation(c: char) -> bool {
    let n = c as u32;
    (0x21 <= n <= 0x2F) || (0x3A <= n <= 0x40) || (0x5B <= n <= 0x60) || (0x7B <= n <= 0x7E)
}

/// `str::to_lowercase`: the result is the lowercase form of the argument. The
/// mapping itself is Unicode's and is left unstated; it depends on the text alone.
#[verifier::external_body]
fn lowercase(text: &str) -> (r: String)
    ensures
        r@ == lowercased(text@),
{
    text.to_lowercase()
}

/// `char::is_whitespace`: true exactly for the characters with the
/// `White_Space` property.
pub assume_specification[ char::is_whitespace ](c: char) -> (r: bool)
    ensures
        r == is_white_space(c),
;

/// `char::is_ascii_punctuation`: true exactly for the four ASCII ranges
/// U+0021..=U+002F, U+003A..=U+0040, U+005B..=U+0060 and U+007B..=U+007E.
pub assume_specification[ char::is_ascii_punctuation ](c: &char) -> (r: bool)
    ensures
        r == is_punctuation(*c),
;

/// `String::push`: appends one character at the end.
pub assume_specification[ String::push ](s: &mut String, c: char)
    ensures
        final(s)@ == old(s)@.push(c),
;

/// A text without its ASCII punctuation, the other characters in their order.
pub open spec fn strip_punctuation(text: Seq<char>) -> Seq<char> {
    text.filter(|c: char| !is_punctuation(c))
}

/// The maximal runs of characters that are not white space, left to right.
pub open spec fn split_words(text: Seq<char>) -> Seq<Seq<char>>
    decreases text.len(),
{
    if text.len() == 0 {
        Seq::empty()
    } else {
        let front = text.drop_last();
        let c = text.last();
        if is_white_space(c) {
            split_words(front)
        } else if front.len() > 0 && !is_white_space(front.last()) {
            let words = split_words(front);
            words.drop_last().push(words.last().push(c))
        } else {
            split_words(front).push(seq![c])
        }
    }
}

/// The terms of a text that is already in lowercase.
pub open spec fn words_of(text: Seq<char>) -> Seq<Seq<char>> {
    split_words(strip_punctuation(text))
}

/// The terms of a query text.
pub open spec fn terms_of(text: Seq<char>) -> Seq<Seq<char>> {
    words_of(lowercased(text))
}

/// The character sequences that a vector of strings stands for.
pub open spec fn views_of(words: Seq<String>) -> Seq<Seq<char>> {
    words.map_values(|w: String| w@)
}

/// When a text ends in a character that is not white space, its last word
/// exists and ends in that character.
proof fn lemma_split_words_open(text: Seq<char>)
    requires
        text.len() > 0,
        !is_white_space(text.last()),
    ensures
        split_words(text).len() > 0,
        split_words(text).last().len() > 0,
        split_words(text).last().last() == text.last(),
    decreases text.len(),
{
    let front = text.drop_last();
    if front.len() > 0 && !is_white_space(front.last()) {
        lemma_split_words_open(front);
    }
}

/// Every word of a split is non-empty and holds no white space.
pub proof fn lemma_split_words_solid(text: Seq<char>)
    ensures
        forall|i: int|
            0 <= i < split_words(text).len() ==> (#[trigger] split_words(text)[i]).len() > 0,
        forall|i: int, k: int|
            0 <= i < split_words(text).len() && 0 <= k < split_words(text)[i].len()
                ==> !is_white_space(#[trigger] split_words(text)[i][k]),
        forall|i: int, k: int|
            0 <= i < split_words(text).len() && 0 <= k < split_words(text)[i].len()
                ==> text.contains(#[trigger] split_words(text)[i][k]),
    decreases text.len(),
{
    if text.len() > 0 {
        let front = text.drop_last();
        let c = text.last();
        lemma_split_words_solid(front);
        assert forall|x: char| front.contains(x) implies text.contains(x) by {
            let k = choose|k: int| 0 <= k < front.len() && front[k] == x;
            assert(text[k] == x);
        }
        assert(text[text.len() - 1] == c);
        if !is_white_space(c) && front.len() > 0 && !is_white_space(front.last()) {
            lemma_split_words_open(front);
        }
    }
}

/// A text without its white space, the other characters in their order.
pub open spec fn without_white_space(text: Seq<char>) -> Seq<char> {
    text.filter(|c: char| !is_white_space(c))
}

/// Splitting loses white space only: the words, one behind the other, are
/// the text without its white space.
pub proof fn lemma_split_words_joined(text: Seq<char>)
    ensures
        split_words(text).flatten() == without_white_space(text),
    decreases text.len(),
{
    reveal(Seq::filter);
    if text.len() > 0 {
        let front = text.drop_last();
        let c = text.last();
        let parts = split_words(front);
        lemma_split_words_joined(front);
        if is_white_space(c) {
        } else if front.len() > 0 && !is_white_space(front.last()) {
            lemma_split_words_open(front);
            assert(parts =~= parts.drop_last().push(parts.last()));
            parts.drop_last().lemma_flatten_push(parts.last());
            parts.drop_last().lemma_flatten_push(parts.last().push(c));
            assert(split_words(text).flatten() =~= parts.flatten().push(c));
        } else {
            parts.lemma_flatten_push(seq![c]);
            assert(split_words(text).flatten() =~= parts.flatten().push(c));
        }
    } else {
        assert(split_words(text).flatten() =~= without_white_space(text));
    }
}

/// A non-empty text without white space is one word.
proof fn lemma_split_words_single(word: Seq<char>)
    requires
        word.len() > 0,
        forall|k: int| 0 <= k < word.len() ==> !is_white_space(word[k]),
    ensures
        split_words(word) == seq![word],
    decreases word.len(),
{
    let front = word.drop_last();
    let c = word.last();
    assert(front.push(c) =~= word);
    if front.len() > 0 {
        lemma_split_words_single(front);
        assert(seq![front].last() == front);
        assert(seq![front].drop_last().push(word) =~= seq![word]);
    } else {
        assert(seq![c] =~= word);
        assert(split_words(front).push(word) =~= seq![word]);
    }
}

/// White space separates: the words of two texts with a white space
/// character between them are the words of the first and then those of the
/// second. With the two facts that an empty text has no word and that a
/// non-empty text without white space is one word, this says what the words
/// of every text are.
pub proof fn lemma_split_words_at_white_space(left: Seq<char>, c: char, right: Seq<char>)
    ensures
        is_white_space(c) ==> split_words(left.push(c) + right) == split_words(left) + split_words(
            right,
        ),
        split_words(Seq::empty()) == Seq::<Seq<char>>::empty(),
        right.len() > 0 && (forall|k: int| 0 <= k < right.len() ==> !is_white_space(right[k]))
            ==> split_words(right) == seq![right],
    decreases right.len(),
{
    if right.len() > 0 && (forall|k: int| 0 <= k < right.len() ==> !is_white_space(right[k])) {
        lemma_split_words_single(right);
    }
    if is_white_space(c) {
        let text = left.push(c) + right;
        if right.len() == 0 {
            assert(text =~= left.push(c));
            assert(text.drop_last() =~= left);
            assert(split_words(left) + split_words(right) =~= split_words(left));
        } else {
            let shorter = right.drop_last();
            let d = right.last();
            let front = left.push(c) + shorter;
            lemma_split_words_at_white_space(left, c, shorter);
            assert(text.drop_last() =~= front);
            assert(text.last() == d);
            let joined = split_words(left) + split_words(shorter);
            if is_white_space(d) {
            } else if shorter.len() > 0 && !is_white_space(shorter.last()) {
                assert(front.last() == shorter.last());
                lemma_split_words_open(shorter);
                assert(joined.last() == split_words(shorter).last());
                assert(joined.drop_last() =~= split_words(left) + split_words(shorter).drop_last());
                assert(split_words(text) =~= split_words(left) + split_words(right));
            } else {
                if shorter.len() > 0 {
                    assert(front.last() == shorter.last());
                } else {
                    assert(front =~= left.push(c));
                    assert(front.last() == c);
                }
                assert(split_words(text) =~= split_words(left) + split_words(right));
            }
        }
    }
}

/// Stripping leaves no punctuation, and leaves a text without punctuation as it is.
pub proof fn lemma_strip_punctuation(text: Seq<char>)
    ensures
        forall|k: int|
            0 <= k < strip_punctuation(text).len() ==> !is_punctuation(
                #[trigger] strip_punctuation(text)[k],
            ),
        (forall|k: int| 0 <= k < text.len() ==> !is_punctuation(text[k])) ==> strip_punctuation(
            text,
        ) == text,
    decreases text.len(),
{
    reveal(Seq::filter);
    if text.len() > 0 {
        lemma_strip_punctuation(text.drop_last());
        if forall|k: int| 0 <= k < text.len() ==> !is_punctuation(text[k]) {
            assert(text.drop_last().push(text.last()) =~= text);
        }
    }
}

/// Whether a word is not empty and holds neither white space nor punctuation.
pub open spec fn is_term(word: Seq<char>) -> bool {
    &&& word.len() > 0
    &&& forall|k: int| 0 <= k < word.len() ==> !is_white_space(word[k]) && !is_punctuation(word[k])
}

proof fn lemma_word_is_fixed(text: Seq<char>, i: int)
    requires
        0 <= i < words_of(text).len(),
    ensures
        is_term(words_of(text)[i]),
        words_of(words_of(text)[i]) == seq![words_of(text)[i]],
{
    let stripped = strip_punctuation(text);
    let word = words_of(text)[i];
    lemma_split_words_solid(stripped);
    lemma_strip_punctuation(text);
    assert forall|k: int| 0 <= k < word.len() implies !is_punctuation(word[k]) by {
        assert(stripped.contains(split_words(stripped)[i][k]));
    }
    lemma_strip_punctuation(word);
    lemma_split_words_single(word);
}

/// Every term of a lowercase text is not empty, holds neither white space
/// nor punctuation, and is its own and only term.
pub proof fn lemma_words_are_fixed(text: Seq<char>)
    ensures
        forall|i: int|
            0 <= i < words_of(text).len() ==> is_term(#[trigger] words_of(text)[i]) && words_of(
                words_of(text)[i],
            ) == seq![words_of(text)[i]],
{
    assert forall|i: int| 0 <= i < words_of(text).len() implies is_term(
        #[trigger] words_of(text)[i],
    ) && words_of(words_of(text)[i]) == seq![words_of(text)[i]] by {
        lemma_word_is_fixed(text, i);
    }
}

/// Normalising a term of a query again gives that term alone, wherever the
/// term is its own lowercase form.
pub proof fn lemma_terms_are_fixed(text: Seq<char>)
    ensures
        forall|i: int|
            0 <= i < terms_of(text).len() ==> is_term(#[trigger] terms_of(text)[i]) && (lowercased(
                terms_of(text)[i],
            ) == terms_of(text)[i] ==> terms_of(terms_of(text)[i]) == seq![terms_of(text)[i]]),
{
    lemma_words_are_fixed(lowercased(text));
}

/// The terms of a text that is already in lowercase: the text without its
/// ASCII punctuation, split at runs of white space. A text that holds
/// nothing else gives no term.
pub fn words(text: &str) -> (r: Vec<String>)
    ensures
        views_of(r@) == words_of(text@),
{
    broadcast use group_string_axioms;

    let mut done: Vec<String> = Vec::new();
    let mut current: String = String::new();
    let mut open: bool = false;
    proof {
        reveal(Seq::filter);
        assert(text@.take(0) =~= Seq::<char>::empty());
        assert(views_of(done@) =~= Seq::<Seq<char>>::empty());
    }
    for c in it: text.chars()
        invariant
            it.seq() == text@,
            open <==> (strip_punctuation(text@.take(it.index() as int)).len() > 0
                && !is_white_space(strip_punctuation(text@.take(it.index() as int)).last())),
            open ==> views_of(done@).push(current@) == split_words(
                strip_punctuation(text@.take(it.index() as int)),
            ),
            !open ==> views_of(done@) == split_words(
                strip_punctuation(text@.take(it.index() as int)),
            ),
            !open ==> current@.len() == 0,
    {
        let ghost seen = text@.take(it.index() as int);
        let ghost before = strip_punctuation(seen);
        let ghost after = strip_punctuation(text@.take(it.index() + 1));
        proof {
            reveal(Seq::filter);
            assert(text@.take(it.index() + 1).drop_last() =~= seen);
            assert(text@.take(it.index() + 1).last() == c);
        }
        if !c.is_ascii_punctuation() {
            assert(after == before.push(c));
            assert(after.drop_last() =~= before);
            if c.is_whitespace() {
                if open {
                    done.push(current);
                    current = String::new();
                    open = false;
                    assert(views_of(done@) =~= split_words(before));
                }
            } else {
                proof {
                    if open {
                        lemma_split_words_open(before);
                        assert(split_words(before).drop_last() =~= views_of(done@));
                        assert(split_words(before).last() == current@);
                    } else {
                        assert(current@.push(c) =~= seq![c]);
                    }
                }
                current.push(c);
                open = true;
            }
        } else {
            assert(after == before);
        }
    }
    assert(text@.take(text@.len() as int) =~= text@);
    if open {
        done.push(current);
        assert(views_of(done@) =~= words_of(text@));
    }
    done
}

/// Normalises a query text into its terms: the text in lowercase, without
/// ASCII punctuation, split at runs of white space. The terms come in the
/// order of the text and repeated terms stay.
pub fn lemmanize(text: String) -> (r: Vec<String>)
    ensures
        views_of(r@) == terms_of(text@),
{
    let lowered = lowercase(text.as_str());
    words(lowered.as_str())
}

} // verus!
