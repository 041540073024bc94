//! Text utilities shared by the directory core: the lexicographic order on
//! character sequences, an executable string comparator, whitespace
//! tokenization, and sorting of string vectors.

use vstd::prelude::*;
use vstd::relations::{antisymmetric, reflexive, sorted_by, strongly_connected, total_ordering,
    transitive};
use vstd::seq_lib::group_to_multiset_ensures;

verus! {

broadcast use group_to_multiset_ensures, vstd::multiset::group_multiset_axioms;

/// Lexicographic "less than or equal" on character sequences, comparing
/// scalar values position by position; a proper prefix precedes every
/// extension of it. This is the order in which listings are presented.
pub open spec fn lex_le(a: Seq<char>, b: Seq<char>) -> bool
    decreases a.len(),
{
    if a.len() == 0 {
        true
    } else if b.len() == 0 {
        false
    } else if a[0] == b[0] {
        lex_le(a.drop_first(), b.drop_first())
    } else {
        a[0] < b[0]
    }
}

/// The lexicographic order as a first-class relation, for `sort_by` and
/// the sortedness predicates.
pub open spec fn lex_leq() -> spec_fn(Seq<char>, Seq<char>) -> bool {
    |a: Seq<char>, b: Seq<char>| lex_le(a, b)
}

/// Either `a` precedes `b` or `b` precedes `a`: the order is total.
pub proof fn lemma_lex_le_total(a: Seq<char>, b: Seq<char>)
    ensures
        lex_le(a, b) || lex_le(b, a),
    decreases a.len(),
{
    if a.len() == 0 || b.len() == 0 {
    } else if a[0] == b[0] {
        lemma_lex_le_total(a.drop_first(), b.drop_first());
    }
}

/// Two sequences that precede each other are equal.
pub proof fn lemma_lex_le_antisymmetric(a: Seq<char>, b: Seq<char>)
    requires
        lex_le(a, b),
        lex_le(b, a),
    ensures
        a == b,
    decreases a.len(),
{
    if a.len() == 0 {
        assert(b.len() == 0);
        assert(a =~= b);
    } else {
        assert(a[0] == b[0]);
        lemma_lex_le_antisymmetric(a.drop_first(), b.drop_first());
        assert(a.len() == b.len()) by {
            assert(a.drop_first().len() == b.drop_first().len());
        }
        assert(a =~= b) by {
            assert forall|i: int| 0 <= i < a.len() implies a[i] == b[i] by {
                if i > 0 {
                    assert(a.drop_first()[i - 1] == b.drop_first()[i - 1]);
                }
            }
        }
    }
}

/// The lexicographic order is transitive.
pub proof fn lemma_lex_le_transitive(a: Seq<char>, b: Seq<char>, c: Seq<char>)
    requires
        lex_le(a, b),
        lex_le(b, c),
    ensures
        lex_le(a, c),
    decreases a.len(),
{
    if a.len() == 0 || b.len() == 0 || c.len() == 0 {
    } else if a[0] == b[0] && b[0] == c[0] {
        lemma_lex_le_transitive(a.drop_first(), b.drop_first(), c.drop_first());
    }
}

/// The lexicographic order is a total ordering in the sense of
/// `vstd::relations`.
pub proof fn lemma_lex_total_ordering()
    ensures
        total_ordering(lex_leq()),
{
    assert forall|a: Seq<char>| #[trigger] lex_leq()(a, a) by {
        lemma_lex_le_total(a, a);
    }
    assert(reflexive(lex_leq()));
    assert forall|a: Seq<char>, b: Seq<char>|
        #[trigger] lex_leq()(a, b) && #[trigger] lex_leq()(b, a) implies a == b by {
        lemma_lex_le_antisymmetric(a, b);
    }
    assert(antisymmetric(lex_leq()));
    assert forall|a: Seq<char>, b: Seq<char>, c: Seq<char>|
        #[trigger] lex_leq()(a, b) && #[trigger] lex_leq()(b, c) implies lex_leq()(a, c) by {
        lemma_lex_le_transitive(a, b, c);
    }
    assert(transitive(lex_leq()));
    assert forall|a: Seq<char>, b: Seq<char>|
        #[trigger] lex_leq()(a, b) || #[trigger] lex_leq()(b, a) by {
        lemma_lex_le_total(a, b);
    }
    assert(strongly_connected(lex_leq()));
}

/// Comparing two sequences with an equal prefix of length `i` comes down
/// to comparing what follows the prefix.
proof fn lemma_lex_le_skip(a: Seq<char>, b: Seq<char>, i: int)
    requires
        0 <= i <= a.len(),
        i <= b.len(),
        a.subrange(0, i) == b.subrange(0, i),
    ensures
        lex_le(a, b) == lex_le(a.skip(i), b.skip(i)),
    decreases i,
{
    if i > 0 {
        assert(a[0] == b[0]) by {
            assert(a.subrange(0, i)[0] == a[0]);
            assert(b.subrange(0, i)[0] == b[0]);
        }
        assert(a.drop_first().subrange(0, i - 1) == b.drop_first().subrange(0, i - 1)) by {
            assert(a.drop_first().subrange(0, i - 1) =~= a.subrange(0, i).drop_first());
            assert(b.drop_first().subrange(0, i - 1) =~= b.subrange(0, i).drop_first());
        }
        lemma_lex_le_skip(a.drop_first(), b.drop_first(), i - 1);
        assert(a.drop_first().skip(i - 1) =~= a.skip(i));
        assert(b.drop_first().skip(i - 1) =~= b.skip(i));
    } else {
        assert(a.skip(0) =~= a);
        assert(b.skip(0) =~= b);
    }
}

/// Decides the lexicographic order on two strings.
pub fn str_lex_le(a: &str, b: &str) -> (r: bool)
    ensures
        r == lex_le(a@, b@),
{
    let a_len = a.unicode_len();
    let b_len = b.unicode_len();
    let mut i: usize = 0;
    while i < a_len && i < b_len
        invariant
            i <= a_len,
            i <= b_len,
            a_len == a@.len(),
            b_len == b@.len(),
            a@.subrange(0, i as int) == b@.subrange(0, i as int),
        decreases a_len - i,
    {
        let ca = a.get_char(i);
        let cb = b.get_char(i);
        if ca != cb {
            proof {
                lemma_lex_le_skip(a@, b@, i as int);
                assert(a@.skip(i as int)[0] == a@[i as int]);
                assert(b@.skip(i as int)[0] == b@[i as int]);
            }
            return ca < cb;
        }
        proof {
            assert(a@.subrange(0, i + 1) =~= b@.subrange(0, i + 1));
        }
        i = i + 1;
    }
    proof {
        lemma_lex_le_skip(a@, b@, i as int);
    }
    a_len <= b_len
}

/// Decides character-for-character equality of two strings.
pub fn str_eq(a: &str, b: &str) -> (r: bool)
    ensures
        r == (a@ == b@),
{
    let le1 = str_lex_le(a, b);
    let le2 = str_lex_le(b, a);
    proof {
        if le1 && le2 {
            lemma_lex_le_antisymmetric(a@, b@);
        }
        if a@ == b@ {
            lemma_lex_le_total(a@, a@);
        }
    }
    le1 && le2
}

/// The characters treated as whitespace when a line is split into
/// tokens: the characters with the Unicode white-space property, from
/// the ASCII space, tabs and line breaks up to the ideographic space.
pub open spec fn is_space(c: char) -> bool {
    ('\u{0009}' <= c && c <= '\u{000D}') || c == ' ' || c == '\u{0085}' || c == '\u{00A0}'
        || c == '\u{1680}' || ('\u{2000}' <= c && c <= '\u{200A}') || c == '\u{2028}' || c
        == '\u{2029}' || c == '\u{202F}' || c == '\u{205F}' || c == '\u{3000}'
}

/// Decides [`is_space`].
pub fn is_space_char(c: char) -> (r: bool)
    ensures
        r == is_space(c),
{
    ('\u{0009}' <= c && c <= '\u{000D}') || c == ' ' || c == '\u{0085}' || c == '\u{00A0}'
        || c == '\u{1680}' || ('\u{2000}' <= c && c <= '\u{200A}') || c == '\u{2028}' || c
        == '\u{2029}' || c == '\u{202F}' || c == '\u{205F}' || c == '\u{3000}'
}

/// The position right after the token that starts at `i`: the first
/// position at or after `i` that holds whitespace, or the end of `s`.
pub open spec fn token_end(s: Seq<char>, i: int) -> int
    decreases s.len() - i when 0 <= i <= s.len()
{
    if i >= s.len() || is_space(s[i]) {
        i
    } else {
        token_end(s, i + 1)
    }
}

/// `token_end` stays within bounds, moves forward over a non-space
/// character, and stops right before whitespace or the end.
pub proof fn lemma_token_end(s: Seq<char>, i: int)
    requires
        0 <= i <= s.len(),
    ensures
        i <= token_end(s, i) <= s.len(),
        i < s.len() && !is_space(s[i]) ==> token_end(s, i) > i,
        forall|j: int| i <= j < token_end(s, i) ==> !is_space(#[trigger] s[j]),
        token_end(s, i) < s.len() ==> is_space(s[token_end(s, i)]),
    decreases s.len() - i,
{
    if i < s.len() && !is_space(s[i]) {
        lemma_token_end(s, i + 1);
    }
}

/// The tokens of `s` from position `i` on: maximal runs of non-space
/// characters, in order.
pub open spec fn tokens_from(s: Seq<char>, i: int) -> Seq<Seq<char>>
    decreases s.len() - i when 0 <= i <= s.len() via tokens_from_dec
{
    if i >= s.len() {
        Seq::empty()
    } else if is_space(s[i]) {
        tokens_from(s, i + 1)
    } else {
        seq![s.subrange(i, token_end(s, i))] + tokens_from(s, token_end(s, i))
    }
}

#[via_fn]
proof fn tokens_from_dec(s: Seq<char>, i: int) {
    if 0 <= i && i < s.len() && !is_space(s[i]) {
        lemma_token_end(s, i);
    }
}

/// The tokens of `s`: what splitting on runs of whitespace yields.
pub open spec fn tokens_of(s: Seq<char>) -> Seq<Seq<char>> {
    tokens_from(s, 0)
}

/// Splits `line` on runs of whitespace into its tokens.
pub fn split_tokens(line: &str) -> (toks: Vec<String>)
    ensures
        toks.deep_view() == tokens_of(line@),
{
    let n = line.unicode_len();
    let mut toks: Vec<String> = Vec::new();
    let mut i: usize = 0;
    while i < n
        invariant
            i <= n,
            n == line@.len(),
            toks.deep_view() + tokens_from(line@, i as int) =~= tokens_of(line@),
        decreases n - i,
    {
        let c = line.get_char(i);
        if is_space_char(c) {
            i = i + 1;
        } else {
            let ghost start0 = i as int;
            let start = i;
            i = i + 1;
            proof {
                lemma_token_end(line@, start0);
            }
            while i < n && !is_space_char(line.get_char(i))
                invariant
                    start < i <= n,
                    n == line@.len(),
                    start == start0,
                    token_end(line@, start0) == token_end(line@, i as int),
                decreases n - i,
            {
                i = i + 1;
            }
            proof {
                assert(token_end(line@, i as int) == i);
                assert(tokens_from(line@, start0) =~= seq![
                    line@.subrange(start0, i as int),
                ] + tokens_from(line@, i as int));
            }
            let tok = line.substring_char(start, i);
            let ghost old_toks = toks.deep_view();
            toks.push(String::from_str(tok));
            proof {
                assert(toks.deep_view() =~= old_toks.push(tok@));
                assert(toks.deep_view() + tokens_from(line@, i as int) =~= tokens_of(line@));
            }
        }
    }
    proof {
        assert(toks.deep_view() + tokens_from(line@, i as int) =~= toks.deep_view());
    }
    toks
}

/// Sorts `v` into lexicographic ascending order. The result is exactly
/// the canonical sorted permutation of the input.
pub fn sort_strings(v: &mut Vec<String>)
    ensures
        final(v).deep_view() == old(v).deep_view().sort_by(lex_leq()),
        sorted_by(final(v).deep_view(), lex_leq()),
        final(v).deep_view().to_multiset() == old(v).deep_view().to_multiset(),
{
    let ghost orig = v.deep_view();
    proof {
        lemma_lex_total_ordering();
    }
    if v.len() > 1 {
        let mut i: usize = 1;
        while i < v.len()
            invariant
                1 <= i <= v@.len(),
                v@.len() == orig.len(),
                v.deep_view().to_multiset() == orig.to_multiset(),
                sorted_by(v.deep_view().subrange(0, i as int), lex_leq()),
            decreases v@.len() - i,
        {
            let ghost d0 = v.deep_view();
            let x = v.remove(i);
            let ghost d1 = v.deep_view();
            proof {
                assert(d1 =~= d0.remove(i as int));
                assert(x@ == d0[i as int]);
            }
            let mut j: usize = 0;
            while j < i && str_lex_le(v[j].as_str(), x.as_str())
                invariant
                    j <= i,
                    i < d0.len(),
                    v.deep_view() == d1,
                    d1 == d0.remove(i as int),
                    v@.len() == d1.len() == d0.len() - 1,
                    forall|k: int| 0 <= k < j ==> #[trigger] lex_le(d1[k], x@),
                decreases i - j,
            {
                j = j + 1;
            }
            proof {
                assert(forall|k: int| 0 <= k < i ==> #[trigger] d1[k] == d0[k]);
                // the sorted prefix of `d0`, stated pointwise
                assert forall|p: int, q: int| 0 <= p < q < i implies lex_le(
                    #[trigger] d0[p],
                    #[trigger] d0[q],
                ) by {
                    assert(lex_leq()(
                        d0.subrange(0, i as int)[p],
                        d0.subrange(0, i as int)[q],
                    ));
                }
                // where the scan stopped, `x` goes no later
                if j < i {
                    lemma_lex_le_total(x@, d1[j as int]);
                    assert(lex_le(x@, d0[j as int]));
                }
            }
            v.insert(j, x);
            let ghost d2 = v.deep_view();
            proof {
                assert(d2 =~= d1.insert(j as int, x@));
                d1.insert_ensures(j as int, x@);
                assert(d2.to_multiset() =~= orig.to_multiset());
                let d3 = d2.subrange(0, i as int + 1);
                assert(sorted_by(d3, lex_leq())) by {
                    assert forall|p: int, q: int| 0 <= p < q < d3.len() implies #[trigger]
                        lex_leq()(d3[p], d3[q]) by {
                        assert(d3[p] == d2[p] && d3[q] == d2[q]);
                        if q < j {
                            assert(lex_le(d0[p], d0[q]));
                        } else if q == j {
                            assert(d2[q] == x@ && d2[p] == d0[p]);
                            assert(lex_le(d0[p], x@));
                        } else {
                            // q > j, so d2[q] == d0[q - 1] with j <= q - 1 < i
                            assert(d2[q] == d1[q - 1] && d1[q - 1] == d0[q - 1]);
                            if q - 1 == j {
                                assert(lex_le(x@, d0[q - 1]));
                            } else {
                                lemma_lex_le_transitive(x@, d0[j as int], d0[q - 1]);
                            }
                            if p < j {
                                assert(d2[p] == d0[p]);
                                assert(lex_le(d0[p], x@));
                                lemma_lex_le_transitive(d0[p], x@, d0[q - 1]);
                            } else if p == j {
                                assert(d2[p] == x@);
                            } else {
                                assert(d2[p] == d0[p - 1]);
                                assert(lex_le(d0[p - 1], d0[q - 1]));
                            }
                        }
                    }
                }
            }
            i = i + 1;
        }
        proof {
            assert(v.deep_view().subrange(0, i as int) =~= v.deep_view());
        }
    }
    proof {
        orig.lemma_sort_by_ensures(lex_leq());
        vstd::seq_lib::lemma_sorted_unique(v.deep_view(), orig.sort_by(lex_leq()), lex_leq());
    }
}

} // verus!
