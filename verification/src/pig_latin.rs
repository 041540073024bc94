//! The pig-latin transformer: per word, a leading vowel earns the
//! suffix `-hay`; otherwise the consonant head up to the first vowel
//! moves behind the tail with the suffix `ay`; a word with no vowel
//! passes through unchanged. Words are joined by single spaces.

use vstd::prelude::*;
use crate::text::{split_tokens, tokens_of};

verus! {

/// The vowels recognized: the five ASCII vowels, in either case.
pub open spec fn is_vowel(c: char) -> bool {
    c == 'a' || c == 'e' || c == 'i' || c == 'o' || c == 'u' || c == 'A' || c == 'E' || c == 'I'
        || c == 'O' || c == 'U'
}

/// Decides [`is_vowel`].
pub fn is_vowel_char(c: char) -> (r: bool)
    ensures
        r == is_vowel(c),
{
    c == 'a' || c == 'e' || c == 'i' || c == 'o' || c == 'u' || c == 'A' || c == 'E' || c == 'I'
        || c == 'O' || c == 'U'
}

/// The position of the first vowel at or after `i`, or the end of `w`
/// if no vowel follows.
pub open spec fn first_vowel(w: Seq<char>, i: int) -> int
    decreases w.len() - i when 0 <= i <= w.len()
{
    if i >= w.len() || is_vowel(w[i]) {
        i
    } else {
        first_vowel(w, i + 1)
    }
}

/// One word in pig latin, split at the character index of its first
/// vowel.
pub open spec fn pig_word(w: Seq<char>) -> Seq<char> {
    let v = first_vowel(w, 0);
    if v >= w.len() {
        w
    } else if v == 0 {
        w + "-hay"@
    } else {
        w.skip(v) + w.take(v) + "ay"@
    }
}

/// The first `q` words, joined by single spaces.
pub open spec fn joined(ws: Seq<Seq<char>>, q: int) -> Seq<char>
    decreases q,
{
    if q <= 0 {
        Seq::empty()
    } else if q == 1 {
        ws[0]
    } else {
        joined(ws, q - 1) + " "@ + ws[q - 1]
    }
}

/// Transforms one word.
fn pig_word_text(w: &str) -> (r: String)
    ensures
        r@ == pig_word(w@),
{
    let n = w.unicode_len();
    let mut i: usize = 0;
    while i < n && !is_vowel_char(w.get_char(i))
        invariant
            i <= n,
            n == w@.len(),
            first_vowel(w@, 0) == first_vowel(w@, i as int),
        decreases n - i,
    {
        i = i + 1;
    }
    if i >= n {
        String::from_str(w)
    } else if i == 0 {
        let mut s = String::from_str(w);
        s.append("-hay");
        s
    } else {
        let tail = w.substring_char(i, n);
        let head = w.substring_char(0, i);
        let mut s = String::from_str(tail);
        s.append(head);
        s.append("ay");
        proof {
            assert(w@.skip(i as int) =~= w@.subrange(i as int, n as int));
            assert(w@.take(i as int) =~= w@.subrange(0, i as int));
        }
        s
    }
}

/// Converts a sentence to pig latin, word by word; runs of whitespace
/// come out as single spaces.
pub fn convert_to_pig_latin(sentence: &String) -> (r: String)
    ensures
        r@ == joined(
            tokens_of(sentence@).map_values(|w: Seq<char>| pig_word(w)),
            tokens_of(sentence@).len() as int,
        ),
{
    let words = split_tokens(sentence.as_str());
    let ghost pws = tokens_of(sentence@).map_values(|w: Seq<char>| pig_word(w));
    let mut out = String::new();
    let mut q: usize = 0;
    while q < words.len()
        invariant
            q <= words@.len(),
            words.deep_view() == tokens_of(sentence@),
            pws == tokens_of(sentence@).map_values(|w: Seq<char>| pig_word(w)),
            out@ == joined(pws, q as int),
        decreases words@.len() - q,
    {
        if q > 0 {
            out.append(" ");
        }
        let pw = pig_word_text(words[q].as_str());
        out.append(pw.as_str());
        proof {
            assert(words[q as int]@ == words.deep_view()[q as int]);
            if q == 0 {
                assert(out@ =~= joined(pws, 1));
            } else {
                assert(out@ =~= joined(pws, q as int + 1));
            }
        }
        q = q + 1;
    }
    out
}

} // verus!
