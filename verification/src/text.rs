//! Small string primitives that the rest of the crate builds on: joining
//! strings with a separator, and splitting a line into its words.
//!
//! Two functions here wrap methods of the standard library that vstd does
//! not specify, `String::push` and `char::is_whitespace`; what is claimed of
//! them is said above each.

use vstd::prelude::*;

verus! {

/// The parts with one `sep` between neighbours.
pub open spec fn join(parts: Seq<Seq<char>>, sep: char) -> Seq<char>
    decreases parts.len(),
{
    if parts.len() == 0 {
        Seq::<char>::empty()
    } else if parts.len() == 1 {
        parts[0]
    } else {
        join(parts.drop_last(), sep).push(sep) + parts.last()
    }
}

/// The texts that a vector of strings holds.
pub open spec fn texts(strings: Seq<String>) -> Seq<Seq<char>> {
    Seq::new(strings.len(), |i: int| strings[i]@)
}

/// The character is white space, as the standard library judges it.
pub uninterp spec fn is_whitespace(c: char) -> bool;

/// The words of `text`: its longest stretches without white space, left to
/// right.
pub open spec fn words(text: Seq<char>) -> Seq<Seq<char>>
    decreases text.len(),
{
    if text.len() == 0 {
        Seq::<Seq<char>>::empty()
    } else {
        let before = words(text.drop_last());
        if is_whitespace(text.last()) {
            before
        } else if ends_in_word(text.drop_last()) {
            before.update(before.len() - 1, before.last().push(text.last()))
        } else {
            before.push(seq![text.last()])
        }
    }
}

/// The last character of `text` belongs to a word.
pub open spec fn ends_in_word(text: Seq<char>) -> bool {
    text.len() > 0 && !is_whitespace(text.last())
}

/// Tells whether `c` is white space.
///
/// Trusted: the body is `char::is_whitespace`, for which vstd has no
/// specification. The standard library documents it as the Unicode property
/// `White_Space`, a fixed set of characters; the contract gives that set
/// the name [`is_whitespace`] and claims nothing more of it.
#[verifier::external_body]
pub(crate) fn char_is_whitespace(c: char) -> (white: bool)
    ensures
        white == is_whitespace(c),
{
    c.is_whitespace()
}

/// Appends one character to the end of `s`.
///
/// Trusted: the body is `String::push`, for which vstd has no specification.
/// The contract claims what the standard library documents: the string
/// afterwards is the string before followed by `c`.
#[verifier::external_body]
pub(crate) fn push_char(s: &mut String, c: char)
    ensures
        final(s)@ == old(s)@.push(c),
{
    s.push(c)
}

/// Concatenates the strings with one `sep` between neighbours.
pub fn join_strings(parts: &Vec<String>, sep: char) -> (text: String)
    ensures
        text@ == join(texts(parts@), sep),
{
    let mut text = String::new();
    let mut i: usize = 0;
    while i < parts.len()
        invariant
            i <= parts@.len(),
            text@ == join(texts(parts@).take(i as int), sep),
        decreases parts@.len() - i,
    {
        proof {
            assert(texts(parts@).take(i + 1).drop_last() =~= texts(parts@).take(i as int));
            assert(texts(parts@).take(i + 1).last() == parts@[i as int]@);
        }
        if i > 0 {
            push_char(&mut text, sep);
        }
        text.append(parts[i].as_str());
        proof {
            if i == 0 {
                assert(Seq::<char>::empty() + parts@[0]@ =~= parts@[0]@);
            }
        }
        i += 1;
    }
    proof {
        assert(texts(parts@).take(parts@.len() as int) =~= texts(parts@));
    }
    text
}

/// A text that ends in a word has a word, and a text has no word exactly if
/// it is all white space.
pub proof fn lemma_words_len(text: Seq<char>)
    ensures
        ends_in_word(text) ==> words(text).len() > 0,
        words(text).len() == 0 <==> forall|i: int|
            0 <= i < text.len() ==> is_whitespace(text[i]),
    decreases text.len(),
{
    if text.len() > 0 {
        let front = text.drop_last();
        lemma_words_len(front);
        if is_whitespace(text.last()) {
            if words(text).len() == 0 {
                assert forall|i: int| 0 <= i < text.len() implies is_whitespace(text[i]) by {
                    if i < front.len() {
                        assert(text[i] == front[i]);
                    }
                }
            } else {
                let i = choose|i: int| 0 <= i < front.len() && !is_whitespace(front[i]);
                assert(text[i] == front[i]);
            }
        } else {
            assert(!is_whitespace(text[text.len() - 1]));
        }
    }
}

/// Splits `text` into its words.
pub fn split_words(text: &str) -> (found: Vec<String>)
    ensures
        texts(found@) == words(text@),
{
    let mut done: Vec<String> = Vec::new();
    let mut current = String::new();
    let mut in_word = false;
    proof {
        assert(texts(done@) =~= words(text@.take(0)));
    }
    for c in it: text.chars()
        invariant
            it.seq() == text@,
            in_word == ends_in_word(text@.take(it.index() as int)),
            in_word ==> texts(done@).push(current@) == words(text@.take(it.index() as int)),
            !in_word ==> texts(done@) == words(text@.take(it.index() as int)),
            !in_word ==> current@.len() == 0,
    {
        proof {
            let k: int = it.index() as int;
            assert(text@.take(k + 1).drop_last() =~= text@.take(k));
            assert(text@.take(k + 1).last() == c);
        }
        let ghost before = texts(done@);
        if char_is_whitespace(c) {
            if in_word {
                done.push(current);
                current = String::new();
                in_word = false;
                assert(texts(done@) =~= before.push(done@[done@.len() - 1]@));
            }
        } else {
            let ghost word = current@;
            push_char(&mut current, c);
            proof {
                if in_word {
                    assert(before.push(current@) =~= before.push(word).update(
                        before.len() as int,
                        word.push(c),
                    ));
                } else {
                    assert(current@ =~= seq![c]);
                }
            }
            in_word = true;
        }
    }
    proof {
        assert(text@.take(text@.len() as int) =~= text@);
    }
    if in_word {
        let ghost before = texts(done@);
        done.push(current);
        assert(texts(done@) =~= before.push(done@[done@.len() - 1]@));
    }
    done
}

/// Tells whether `text` has no word: it is empty or all white space.
pub fn is_blank(text: &str) -> (blank: bool)
    ensures
        blank == (words(text@).len() == 0),
{
    for c in it: text.chars()
        invariant
            it.seq() == text@,
            forall|i: int| 0 <= i < it.index() ==> is_whitespace(text@[i]),
    {
        if !char_is_whitespace(c) {
            proof {
                lemma_words_len(text@);
                assert(!is_whitespace(text@[it.index() as int]));
            }
            return false;
        }
    }
    proof {
        lemma_words_len(text@);
    }
    true
}

} // verus!
