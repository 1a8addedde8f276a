//! Text as the archive sees it: UTF-8 on the wire, words in the index.
//!
//! A text is cut into words at whitespace, and a word is indexed in lower
//! case. Which characters are whitespace and what the lower case of a text
//! is, Unicode decides: both are taken from the standard library.

use vstd::prelude::*;
use vstd::utf8::*;

verus! {

/// Whether `c` is whitespace to `char::is_whitespace`.
pub uninterp spec fn is_space(c: char) -> bool;

/// The lower case that `str::to_lowercase` gives for the characters `s`.
pub uninterp spec fn lowercase(s: Seq<char>) -> Seq<char>;

/// `char::is_whitespace`: whether the character has the Unicode property
/// White_Space.
#[verifier::external_body]
fn char_is_space(c: char) -> (b: bool)
    ensures
        b == is_space(c),
{
    c.is_whitespace()
}

/// `str::to_lowercase`: the lower case of a text, which depends on its
/// characters alone.
#[verifier::external_body]
pub(crate) fn to_lowercase(s: &str) -> (lower: String)
    ensures
        lower@ == lowercase(s@),
{
    s.to_lowercase()
}

/// `String::push`: appends one character.
#[verifier::external_body]
fn string_push(s: &mut String, c: char)
    ensures
        final(s)@ == old(s)@.push(c),
{
    s.push(c);
}

/// `String::from_utf8`: turns bytes into a string when they are well-formed
/// UTF-8, and only then; the string holds the characters that the bytes
/// encode.
#[verifier::external_body]
pub(crate) fn string_from_utf8(bytes: Vec<u8>) -> (s: Option<String>)
    ensures
        s is Some <==> valid_utf8(bytes@),
        s matches Some(t) ==> t@ == decode_utf8(bytes@),
{
    match String::from_utf8(bytes) {
        Ok(t) => Some(t),
        Err(_) => None,
    }
}

/// The run of characters other than whitespace that `text` ends with;
/// empty when `text` is empty or ends with whitespace.
pub open spec fn open_word(text: Seq<char>) -> Seq<char>
    decreases text.len(),
{
    if text.len() == 0 || is_space(text.last()) {
        Seq::empty()
    } else {
        open_word(text.drop_last()).push(text.last())
    }
}

/// The words of `text` that whitespace has ended, in order.
pub open spec fn closed_words(text: Seq<char>) -> Seq<Seq<char>>
    decreases text.len(),
{
    if text.len() == 0 {
        Seq::empty()
    } else if is_space(text.last()) && open_word(text.drop_last()).len() > 0 {
        closed_words(text.drop_last()).push(open_word(text.drop_last()))
    } else {
        closed_words(text.drop_last())
    }
}

/// The words of `text`: its maximal runs of characters other than
/// whitespace, in order.
pub open spec fn words(text: Seq<char>) -> Seq<Seq<char>> {
    if open_word(text).len() > 0 {
        closed_words(text).push(open_word(text))
    } else {
        closed_words(text)
    }
}

/// Whether no character of `run` is whitespace.
pub open spec fn free_of_space(run: Seq<char>) -> bool {
    forall|i: int| 0 <= i < run.len() ==> !is_space(#[trigger] run[i])
}

/// The run that a text ends with holds no whitespace.
pub proof fn lemma_open_word_is_run(text: Seq<char>)
    ensures
        free_of_space(open_word(text)),
    decreases text.len(),
{
    if text.len() > 0 {
        lemma_open_word_is_run(text.drop_last());
    }
}

/// Every word is a run: it is not empty and holds no whitespace.
pub proof fn lemma_words_are_runs(text: Seq<char>, j: int)
    requires
        0 <= j < words(text).len(),
    ensures
        words(text)[j].len() > 0,
        free_of_space(words(text)[j]),
{
    lemma_open_word_is_run(text);
    if j < closed_words(text).len() {
        lemma_closed_words_are_runs(text, j);
    }
}

/// Every word that whitespace has ended is a run.
proof fn lemma_closed_words_are_runs(text: Seq<char>, j: int)
    requires
        0 <= j < closed_words(text).len(),
    ensures
        closed_words(text)[j].len() > 0,
        free_of_space(closed_words(text)[j]),
    decreases text.len(),
{
    let front = text.drop_last();
    if j < closed_words(front).len() {
        lemma_closed_words_are_runs(front, j);
    } else {
        lemma_open_word_is_run(front);
    }
}

/// A text without whitespace, unless it is empty, is one word.
pub proof fn lemma_words_of_run(text: Seq<char>)
    requires
        text.len() > 0,
        free_of_space(text),
    ensures
        words(text) == seq![text],
{
    lemma_run_is_open(text);
    assert(words(text) =~= seq![text]);
}

/// A text without whitespace has no ended word and is itself the run it
/// ends with.
proof fn lemma_run_is_open(text: Seq<char>)
    requires
        free_of_space(text),
    ensures
        open_word(text) == text,
        closed_words(text).len() == 0,
    decreases text.len(),
{
    if text.len() > 0 {
        let front = text.drop_last();
        assert(!is_space(text[text.len() - 1]));
        assert forall|i: int| 0 <= i < front.len() implies !is_space(#[trigger] front[i]) by {
            assert(front[i] == text[i]);
        }
        lemma_run_is_open(front);
        assert(front.push(text.last()) =~= text);
    } else {
        assert(open_word(text) =~= text);
    }
}

/// Whitespace separates: the words of two texts joined by a whitespace
/// character are the words of the first, then the words of the second.
pub proof fn lemma_words_of_joined(a: Seq<char>, sep: char, b: Seq<char>)
    requires
        is_space(sep),
    ensures
        words(a.push(sep) + b) == words(a) + words(b),
{
    lemma_joined(a, sep, b);
    assert(words(a.push(sep) + b) =~= words(a) + words(b));
}

/// After a whitespace character, the run at the end and the ended words
/// go by what follows the character.
proof fn lemma_joined(a: Seq<char>, sep: char, b: Seq<char>)
    requires
        is_space(sep),
    ensures
        open_word(a.push(sep) + b) == open_word(b),
        closed_words(a.push(sep) + b) == words(a) + closed_words(b),
    decreases b.len(),
{
    let all = a.push(sep) + b;
    if b.len() == 0 {
        assert(all =~= a.push(sep));
        assert(all.drop_last() =~= a);
        assert(closed_words(all) =~= words(a) + closed_words(b));
    } else {
        let front = b.drop_last();
        lemma_joined(a, sep, front);
        assert(all.drop_last() =~= a.push(sep) + front);
        assert(all.last() == b.last());
        assert(closed_words(all) =~= words(a) + closed_words(b));
    }
}

/// The characters of each string of a sequence.
pub open spec fn texts(strings: Seq<String>) -> Seq<Seq<char>> {
    strings.map_values(|s: String| s@)
}

/// Cuts `text` into its words.
pub fn split_words(text: &str) -> (found: Vec<String>)
    ensures
        texts(found@) == words(text@),
{
    let mut found: Vec<String> = Vec::new();
    let mut word = String::new();
    for c in it: text.chars()
        invariant
            it.seq() == text@,
            texts(found@) == closed_words(text@.take(it.index())),
            word@ == open_word(text@.take(it.index())),
    {
        proof {
            assert(text@.take(it.index() + 1).drop_last() =~= text@.take(it.index()));
        }
        if char_is_space(c) {
            if !word.as_str().is_empty() {
                let ghost earlier = found@;
                found.push(word);
                assert(texts(found@) =~= texts(earlier).push(word@));
                word = String::new();
            }
        } else {
            string_push(&mut word, c);
        }
    }
    proof {
        assert(text@.take(text@.len() as int) =~= text@);
    }
    if !word.as_str().is_empty() {
        let ghost earlier = found@;
        found.push(word);
        assert(texts(found@) =~= texts(earlier).push(word@));
    }
    found
}

} // verus!
