//! Splitting a line of text into words.
//!
//! A word is a longest run of characters that holds no white space. What
//! counts as white space is left to `char::is_whitespace`: the text is first
//! marked, character by character, and the marked text is split.

use vstd::prelude::*;

verus! {

/// The answer of `char::is_whitespace` for `c`: whether `c` has the Unicode
/// property `White_Space`. The property is a fixed table of the standard
/// library; nothing more is claimed of it here.
pub uninterp spec fn is_whitespace(c: char) -> bool;

/// `char::is_whitespace` returns what [`is_whitespace`] names. Believed, not
/// proved.
pub assume_specification[ char::is_whitespace ](c: char) -> (b: bool)
    ensures
        b == is_whitespace(c),
;

/// `String::push` appends the character to the end of the string and changes
/// nothing else. Believed, not proved.
pub assume_specification[ String::push ](s: &mut String, ch: char)
    ensures
        final(s)@ == old(s)@.push(ch),
;

/// The characters of a marked text, without their marks.
pub open spec fn letters(text: Seq<(char, bool)>) -> Seq<char> {
    Seq::new(text.len(), |i: int| text[i].0)
}

/// The number of characters at the start of `text` before the first one that
/// is marked, or all of them if none is.
pub open spec fn word_len(text: Seq<(char, bool)>) -> nat
    decreases text.len(),
{
    if text.len() == 0 || text[0].1 {
        0
    } else {
        1 + word_len(text.skip(1))
    }
}

/// The words of a marked text, from left to right. A character that is
/// marked separates words; one that is not belongs to a word.
///
/// Marked characters at the start are passed over. The first word runs up to
/// the next marked character or the end of the text; the other words are
/// those of the text that follows it.
pub open spec fn words_of(text: Seq<(char, bool)>) -> Seq<Seq<char>>
    decreases text.len(),
    via words_of_decreases
{
    if text.len() == 0 {
        Seq::empty()
    } else if text[0].1 {
        words_of(text.skip(1))
    } else {
        let n = word_len(text) as int;
        seq![letters(text.take(n))] + words_of(text.skip(n))
    }
}

#[via_fn]
proof fn words_of_decreases(text: Seq<(char, bool)>) {
    lemma_word_len_bounds(text);
}

/// `s` with every character marked as white space or not.
pub open spec fn marked(s: Seq<char>) -> Seq<(char, bool)> {
    Seq::new(s.len(), |i: int| (s[i], is_whitespace(s[i])))
}

/// The words of `s`: its longest runs of characters that hold no white
/// space, from left to right.
pub open spec fn words(s: Seq<char>) -> Seq<Seq<char>> {
    words_of(marked(s))
}

/// `w` is not empty and holds no white space.
pub open spec fn is_solid(w: Seq<char>) -> bool {
    w.len() > 0 && forall|k: int| 0 <= k < w.len() ==> !is_whitespace(#[trigger] w[k])
}

/// A first word is never longer than the text, and is not empty where the
/// text starts with a character that is not marked.
pub proof fn lemma_word_len_bounds(text: Seq<(char, bool)>)
    ensures
        word_len(text) <= text.len(),
        text.len() > 0 && !text[0].1 ==> word_len(text) >= 1,
    decreases text.len(),
{
    if text.len() > 0 && !text[0].1 {
        lemma_word_len_bounds(text.skip(1));
    }
}

/// No character of the first word is marked.
pub proof fn lemma_word_has_no_gap(text: Seq<(char, bool)>)
    ensures
        word_len(text) <= text.len(),
        forall|k: int| 0 <= k < word_len(text) ==> !(#[trigger] text[k]).1,
    decreases text.len(),
{
    if text.len() > 0 && !text[0].1 {
        lemma_word_has_no_gap(text.skip(1));
        assert forall|k: int| 0 <= k < word_len(text) implies !(#[trigger] text[k]).1 by {
            if k > 0 {
                assert(text[k] == text.skip(1)[k - 1]);
            }
        }
    }
}

/// A run of `n` characters without a mark that ends at a marked character,
/// or at the end of the text, is the first word.
proof fn lemma_word_len_is(text: Seq<(char, bool)>, n: int)
    requires
        0 <= n <= text.len(),
        forall|k: int| 0 <= k < n ==> !text[k].1,
        n == text.len() || text[n].1,
    ensures
        word_len(text) == n,
    decreases n,
{
    if n > 0 {
        assert(!text[0].1);
        assert forall|k: int| 0 <= k < n - 1 implies !text.skip(1)[k].1 by {
            assert(!text[k + 1].1);
        }
        lemma_word_len_is(text.skip(1), n - 1);
    }
}

/// Where the characters of `text` from `start` up to `end` bear no mark and
/// end at a marked character or at the end of the text, they are the first
/// word of what `text` holds from `start` on.
proof fn lemma_first_word(text: Seq<(char, bool)>, start: int, end: int)
    requires
        0 <= start < end <= text.len(),
        forall|k: int| start <= k < end ==> !text[k].1,
        end == text.len() || text[end].1,
    ensures
        words_of(text.skip(start)) == seq![letters(text.subrange(start, end))] + words_of(
            text.skip(end),
        ),
{
    let tail = text.skip(start);
    assert forall|k: int| 0 <= k < end - start implies !tail[k].1 by {
        assert(tail[k] == text[start + k]);
    }
    lemma_word_len_is(tail, end - start);
    assert(!tail[0].1);
    assert(tail.take(end - start) =~= text.subrange(start, end));
    assert(tail.skip(end - start) =~= text.skip(end));
}

/// In a text whose marks are those of white space, no word is empty and no
/// word holds white space.
proof fn lemma_words_of_are_solid(text: Seq<(char, bool)>)
    requires
        forall|k: int| 0 <= k < text.len() ==> (#[trigger] text[k]).1 == is_whitespace(text[k].0),
    ensures
        forall|i: int| 0 <= i < words_of(text).len() ==> is_solid(#[trigger] words_of(text)[i]),
    decreases text.len(),
{
    if text.len() == 0 {
        assert(words_of(text).len() == 0);
    } else if text[0].1 {
        lemma_words_of_are_solid(text.skip(1));
        assert(words_of(text) == words_of(text.skip(1)));
    } else {
        let n = word_len(text) as int;
        lemma_word_len_bounds(text);
        lemma_word_has_no_gap(text);
        lemma_words_of_are_solid(text.skip(n));
        let rest = words_of(text.skip(n));
        assert forall|i: int| 0 <= i < words_of(text).len() implies is_solid(
            #[trigger] words_of(text)[i],
        ) by {
            if i > 0 {
                assert(words_of(text)[i] == rest[i - 1]);
            } else {
                let first = letters(text.take(n));
                assert(words_of(text)[0] == first);
                assert forall|k: int| 0 <= k < first.len() implies !is_whitespace(
                    #[trigger] first[k],
                ) by {
                    assert(first[k] == text[k].0);
                }
            }
        }
    }
}

/// No word is empty, and no word holds white space.
pub proof fn lemma_words_are_solid(s: Seq<char>)
    ensures
        forall|i: int| 0 <= i < words(s).len() ==> is_solid(#[trigger] words(s)[i]),
{
    lemma_words_of_are_solid(marked(s));
}

/// Splits a marked text into its words.
///
/// A text that is empty, or marked throughout, has no words.
pub fn split_marked(text: &[(char, bool)]) -> (found: Vec<String>)
    ensures
        found.deep_view() == words_of(text@),
{
    let mut found: Vec<String> = Vec::new();
    // The word that is being read; it started at `start`.
    let mut word = String::new();
    let ghost mut start: int = 0;
    let mut i: usize = 0;
    assert(text@.skip(0) =~= text@);
    assert(found.deep_view() + words_of(text@) =~= words_of(text@));
    assert(word@ =~= letters(text@.subrange(0, 0)));
    while i < text.len()
        invariant
            0 <= start <= i <= text@.len(),
            words_of(text@) == found.deep_view() + words_of(text@.skip(start)),
            word@ == letters(text@.subrange(start, i as int)),
            forall|k: int| start <= k < i ==> !text@[k].1,
        decreases text@.len() - i,
    {
        let (c, white) = text[i];
        if white {
            proof {
                assert(text@.skip(i as int).skip(1) =~= text@.skip(i + 1));
                assert(text@.skip(i as int)[0] == text@[i as int]);
            }
            if !word.as_str().is_empty() {
                let ghost before = found.deep_view();
                let ghost run = letters(text@.subrange(start, i as int));
                proof {
                    lemma_first_word(text@, start, i as int);
                }
                found.push(word);
                word = String::new();
                assert(found.deep_view() =~= before.push(run));
                assert(before + (seq![run] + words_of(text@.skip(i as int))) =~= before.push(run)
                    + words_of(text@.skip(i as int)));
            }
            proof {
                start = i + 1;
            }
        } else {
            word.push(c);
        }
        i += 1;
        assert(word@ =~= letters(text@.subrange(start, i as int)));
    }
    let ghost before = found.deep_view();
    let ghost run = letters(text@.subrange(start, i as int));
    if !word.as_str().is_empty() {
        proof {
            lemma_first_word(text@, start, i as int);
            assert(words_of(text@.skip(i as int)) =~= Seq::<Seq<char>>::empty());
        }
        found.push(word);
        assert(found.deep_view() =~= before.push(run));
        assert(before + (seq![run] + Seq::<Seq<char>>::empty()) =~= before.push(run));
    } else {
        assert(words_of(text@.skip(start)) =~= Seq::<Seq<char>>::empty());
        assert(before + Seq::<Seq<char>>::empty() =~= before);
    }
    found
}

/// Marks every character of `input` as white space or not.
pub fn mark(input: &str) -> (text: Vec<(char, bool)>)
    ensures
        text@ == marked(input@),
{
    let mut text: Vec<(char, bool)> = Vec::new();
    for c in it: input.chars()
        invariant
            it.seq() == input@,
            text@ == marked(input@).take(it.index() as int),
    {
        text.push((c, c.is_whitespace()));
        assert(text@ =~= marked(input@).take(it.index() + 1));
    }
    assert(text@ =~= marked(input@));
    text
}

/// Splits `input` into its words.
///
/// Text that is empty or all white space has no words.
pub fn split_whitespace(input: &str) -> (found: Vec<String>)
    ensures
        found.deep_view() == words(input@),
{
    let text = mark(input);
    split_marked(text.as_slice())
}

} // verus!
