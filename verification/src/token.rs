//! Cutting an expression into tokens.

use vstd::prelude::*;
use vstd::std_specs::iter::IteratorSpec;
use vstd::string::{axiom_spec_iter, next_postcondition};
use crate::whitespace::{is_blank, is_space, is_whitespace, is_word};

verus! {

/// The tokens of `s`: its maximal runs of characters that are not white
/// space, from left to right.
///
/// Read from the right: a white-space character adds nothing; any other
/// character lengthens the last token if the character before it belongs to
/// one, and otherwise starts a new token.
pub open spec fn tokens(s: Seq<char>) -> Seq<Seq<char>>
    decreases s.len(),
{
    if s.len() == 0 {
        Seq::empty()
    } else {
        let front = tokens(s.drop_last());
        if is_whitespace(s.last()) {
            front
        } else if s.len() >= 2 && !is_whitespace(s[s.len() - 2]) {
            front.drop_last().push(front.last().push(s.last()))
        } else {
            front.push(seq![s.last()])
        }
    }
}

/// Every token is a word: it has at least one character and none of them is
/// white space. Text that ends in a character other than white space has at
/// least one token.
pub proof fn lemma_tokens_are_words(s: Seq<char>)
    ensures
        forall|k: int|
            0 <= k < tokens(s).len() ==> (#[trigger] tokens(s)[k]).len() > 0 && is_word(
                tokens(s)[k],
            ),
        s.len() > 0 && !is_whitespace(s.last()) ==> tokens(s).len() > 0,
    decreases s.len(),
{
    if s.len() > 0 {
        let front = tokens(s.drop_last());
        let c = s.last();
        lemma_tokens_are_words(s.drop_last());
        if is_whitespace(c) {
        } else if s.len() >= 2 && !is_whitespace(s[s.len() - 2]) {
            assert(s.drop_last().last() == s[s.len() - 2]);
            let grown = front.last().push(c);
            assert(is_word(front.last()));
            assert forall|j: int| 0 <= j < grown.len() implies !is_whitespace(
                #[trigger] grown[j],
            ) by {
                if j < front.last().len() {
                    assert(grown[j] == front.last()[j]);
                }
            }
            assert forall|k: int| 0 <= k < tokens(s).len() implies (#[trigger] tokens(s)[k]).len()
                > 0 && is_word(tokens(s)[k]) by {
                if k < front.len() - 1 {
                    assert(tokens(s)[k] == front[k]);
                } else {
                    assert(tokens(s)[k] == grown);
                }
            }
        } else {
            assert(is_word(seq![c]));
            assert forall|k: int| 0 <= k < tokens(s).len() implies (#[trigger] tokens(s)[k]).len()
                > 0 && is_word(tokens(s)[k]) by {
                if k < front.len() {
                    assert(tokens(s)[k] == front[k]);
                } else {
                    assert(tokens(s)[k] == seq![c]);
                }
            }
        }
    }
}

/// Text without any character other than white space has no token.
pub proof fn lemma_tokens_of_blank(s: Seq<char>)
    requires
        is_blank(s),
    ensures
        tokens(s) == Seq::<Seq<char>>::empty(),
    decreases s.len(),
{
    if s.len() > 0 {
        lemma_tokens_of_blank(s.drop_last());
    }
}

/// A word is its own single token.
pub proof fn lemma_tokens_of_word(s: Seq<char>)
    requires
        s.len() > 0,
        is_word(s),
    ensures
        tokens(s) == seq![s],
    decreases s.len(),
{
    if s.len() == 1 {
        assert(tokens(s.drop_last()) =~= Seq::<Seq<char>>::empty());
        assert(seq![s.last()] =~= s);
        assert(tokens(s) =~= seq![s]);
    } else {
        let front = s.drop_last();
        lemma_tokens_of_word(front);
        assert(front.push(s.last()) =~= s);
        assert(tokens(s) =~= seq![s]);
    }
}

/// Text may be cut wherever white space stands on either side of the cut:
/// the tokens of the whole are those of the left part followed by those of
/// the right part.
pub proof fn lemma_tokens_concat(a: Seq<char>, b: Seq<char>)
    requires
        a.len() == 0 || b.len() == 0 || is_whitespace(a.last()) || is_whitespace(b[0]),
    ensures
        tokens(a + b) == tokens(a) + tokens(b),
    decreases b.len(),
{
    if b.len() == 0 {
        assert(a + b =~= a);
        assert(tokens(a) + tokens(b) =~= tokens(a));
    } else {
        let whole = a + b;
        let shorter = b.drop_last();
        assert(whole.drop_last() =~= a + shorter);
        assert(whole.last() == b.last());
        lemma_tokens_concat(a, shorter);
        lemma_tokens_are_words(shorter);
        let left = tokens(a);
        let right = tokens(shorter);
        if is_whitespace(b.last()) {
        } else if b.len() >= 2 && !is_whitespace(b[b.len() - 2]) {
            assert(whole[whole.len() - 2] == b[b.len() - 2]);
            assert(shorter.last() == b[b.len() - 2]);
            assert((left + right).drop_last() =~= left + right.drop_last());
            assert((left + right).last() == right.last());
            assert(tokens(whole) =~= left + tokens(b));
        } else if b.len() >= 2 {
            assert(whole[whole.len() - 2] == b[b.len() - 2]);
            assert(tokens(whole) =~= left + tokens(b));
        } else {
            assert(a.len() > 0 ==> whole[whole.len() - 2] == a.last());
            assert(right =~= Seq::<Seq<char>>::empty());
            assert(tokens(whole) =~= left + tokens(b));
        }
    }
}

/// White space at either end of a text does not change its tokens.
pub proof fn lemma_tokens_blank_ends(lead: Seq<char>, s: Seq<char>, trail: Seq<char>)
    requires
        is_blank(lead),
        is_blank(trail),
    ensures
        tokens(lead + s + trail) == tokens(s),
{
    lemma_tokens_of_blank(lead);
    lemma_tokens_of_blank(trail);
    lemma_tokens_concat(lead, s);
    lemma_tokens_concat(lead + s, trail);
    assert(tokens(lead) + tokens(s) + tokens(trail) =~= tokens(s));
}

/// A run of white space between two texts separates their tokens, however
/// long it is: any such run may stand in place of any other, a single space
/// among them.
pub proof fn lemma_tokens_blank_between(
    a: Seq<char>,
    gap: Seq<char>,
    other_gap: Seq<char>,
    b: Seq<char>,
)
    requires
        gap.len() > 0,
        is_blank(gap),
        other_gap.len() > 0,
        is_blank(other_gap),
    ensures
        tokens(a + gap + b) == tokens(a) + tokens(b),
        tokens(a + gap + b) == tokens(a + other_gap + b),
        tokens(a + gap + b) == tokens(a + seq![' '] + b),
{
    lemma_tokens_split(a, gap, b);
    lemma_tokens_split(a, other_gap, b);
    lemma_tokens_split(a, seq![' '], b);
}

/// Reading from the left: a word followed by white space is the first token,
/// and the tokens of what follows come after it.
pub proof fn lemma_tokens_first(word: Seq<char>, gap: Seq<char>, rest: Seq<char>)
    requires
        word.len() > 0,
        is_word(word),
        gap.len() > 0,
        is_blank(gap),
    ensures
        tokens(word + gap + rest) == seq![word] + tokens(rest),
{
    lemma_tokens_split(word, gap, rest);
    lemma_tokens_of_word(word);
}

/// The tokens of two texts with a run of white space between them.
proof fn lemma_tokens_split(a: Seq<char>, gap: Seq<char>, b: Seq<char>)
    requires
        gap.len() > 0,
        is_blank(gap),
    ensures
        tokens(a + gap + b) == tokens(a) + tokens(b),
{
    lemma_tokens_of_blank(gap);
    assert(is_whitespace(gap[0]));
    assert(is_whitespace(gap.last()));
    lemma_tokens_concat(a, gap);
    assert((a + gap).last() == gap.last());
    lemma_tokens_concat(a + gap, b);
    assert(tokens(a) + tokens(gap) + tokens(b) =~= tokens(a) + tokens(b));
}

/// The views of a sequence of string slices.
pub open spec fn views(toks: Seq<&str>) -> Seq<Seq<char>> {
    Seq::new(toks.len(), |i: int| toks[i]@)
}

/// Cuts an expression into its tokens, each a slice of the expression.
///
/// Runs of white space of any length separate tokens; white space at either
/// end is dropped, and no token is empty.
pub fn tokenize<'a>(exp: &'a str) -> (toks: Vec<&'a str>)
    ensures
        views(toks@) == tokens(exp@),
{
    broadcast use {axiom_spec_iter, next_postcondition};

    let n = exp.unicode_len();
    let mut toks: Vec<&'a str> = Vec::new();
    let mut rest = exp.chars();
    let mut start: Option<usize> = None;
    let mut i: usize = 0;
    loop
        invariant
            n == exp@.len(),
            i <= n,
            rest.remaining() == exp@.skip(i as int),
            match start {
                Some(a) => a < i && tokens(exp@.take(i as int)) == views(toks@).push(
                    exp@.subrange(a as int, i as int),
                ) && !is_whitespace(exp@[i - 1]),
                None => tokens(exp@.take(i as int)) == views(toks@) && (i > 0 ==> is_whitespace(
                    exp@[i - 1],
                )),
            },
        ensures
            i == n,
        decreases n - i,
    {
        let next = rest.next();
        match next {
            None => {
                assert(exp@.skip(i as int).len() == 0);
                break ;
            },
            Some(c) => {
                proof {
                    assert(exp@.take(i + 1).drop_last() =~= exp@.take(i as int));
                    assert(exp@.take(i + 1).last() == c);
                }
                if is_space(c) {
                    if let Some(a) = start {
                        let tok = exp.substring_char(a, i);
                        proof {
                            assert(views(toks@.push(tok)) =~= views(toks@).push(tok@));
                        }
                        toks.push(tok);
                        start = None;
                    }
                } else {
                    match start {
                        Some(a) => {
                            proof {
                                assert(exp@.subrange(a as int, i + 1) =~= exp@.subrange(
                                    a as int,
                                    i as int,
                                ).push(c));
                                let front = views(toks@).push(exp@.subrange(a as int, i as int));
                                assert(front.drop_last() =~= views(toks@));
                            }
                        },
                        None => {
                            proof {
                                assert(exp@.subrange(i as int, i + 1) =~= seq![c]);
                            }
                            start = Some(i);
                        },
                    }
                }
                i += 1;
            },
        }
    }
    proof {
        assert(exp@.take(i as int) =~= exp@);
    }
    if let Some(a) = start {
        let tok = exp.substring_char(a, i);
        proof {
            assert(views(toks@.push(tok)) =~= views(toks@).push(tok@));
        }
        toks.push(tok);
    }
    toks
}

} // verus!
