//! Evaluating an expression: the loop over its tokens.

use vstd::prelude::*;
use crate::operator::{operator_of, Operator};
use crate::stack::{apply2, RpnError};
use crate::token::{lemma_tokens_blank_between, lemma_tokens_blank_ends, tokenize, tokens, views};
use crate::whitespace::is_blank;

verus! {

/// Whether `parse` may return `r` for a slice that reads `token`.
pub open spec fn reads_as<V, P: Fn(&str) -> Option<V>>(
    parse: P,
    token: Seq<char>,
    r: Option<V>,
) -> bool {
    exists|t: &str| t@ == token && #[trigger] parse.ensures((t,), r)
}

/// Whether a token may take the stack from `before` to `after`.
///
/// A token that `parse` reads as a number pushes that number. A token that
/// it does not read, and that denotes an operator, replaces the two topmost
/// values by what `apply` returns for them: the lower one is the left
/// operand, the topmost the right one.
pub open spec fn steps_to<V, P: Fn(&str) -> Option<V>, A: Fn(Operator, V, V) -> V>(
    parse: P,
    apply: A,
    token: Seq<char>,
    before: Seq<V>,
    after: Seq<V>,
) -> bool {
    ||| {
        &&& after.len() == before.len() + 1
        &&& after.drop_last() == before
        &&& reads_as(parse, token, Some(after.last()))
    }
    ||| {
        &&& reads_as(parse, token, None::<V>)
        &&& operator_of(token) is Some
        &&& before.len() >= 2
        &&& after.len() == before.len() - 1
        &&& after.drop_last() == before.take(before.len() - 2)
        &&& apply.ensures(
            (operator_of(token)->0, before[before.len() - 2], before[before.len() - 1]),
            after.last(),
        )
    }
}

/// Whether a token may stop the evaluation with `e` on the stack `before`.
///
/// Only a token that `parse` does not read can: an operator where fewer than
/// two operands are there, and any token that denotes no operator.
pub open spec fn fails_with<V, P: Fn(&str) -> Option<V>>(
    parse: P,
    token: Seq<char>,
    before: Seq<V>,
    e: RpnError,
) -> bool {
    &&& reads_as(parse, token, None::<V>)
    &&& match operator_of(token) {
        Some(_) => before.len() < 2 && e == RpnError::StackUnderflow,
        None => e matches RpnError::InvalidToken(s) && s@ == token,
    }
}

/// Whether the tokens `toks`, taken in order from an empty stack, may leave
/// the stack `stack`.
pub open spec fn reaches<V, P: Fn(&str) -> Option<V>, A: Fn(Operator, V, V) -> V>(
    parse: P,
    apply: A,
    toks: Seq<Seq<char>>,
    stack: Seq<V>,
) -> bool
    decreases toks.len(),
{
    if toks.len() == 0 {
        stack.len() == 0
    } else {
        exists|prev: Seq<V>|
            #![trigger steps_to(parse, apply, toks.last(), prev, stack)]
            reaches(parse, apply, toks.drop_last(), prev) && steps_to(
                parse,
                apply,
                toks.last(),
                prev,
                stack,
            )
    }
}

/// One more token extends a run: where `toks` may leave `prev` and `token`
/// may take `prev` to `stack`, the tokens `toks` followed by `token` may
/// leave `stack`.
pub proof fn lemma_reaches_push<V, P: Fn(&str) -> Option<V>, A: Fn(Operator, V, V) -> V>(
    parse: P,
    apply: A,
    toks: Seq<Seq<char>>,
    prev: Seq<V>,
    token: Seq<char>,
    stack: Seq<V>,
)
    requires
        reaches(parse, apply, toks, prev),
        steps_to(parse, apply, token, prev, stack),
    ensures
        reaches(parse, apply, toks.push(token), stack),
{
    let longer = toks.push(token);
    assert(longer.drop_last() =~= toks);
    assert(longer.last() == token);
    assert(reaches(parse, apply, longer.drop_last(), prev));
    assert(steps_to(parse, apply, longer.last(), prev, stack));
}

/// Whether the token at `i` stops the evaluation of `toks` with `e`.
pub open spec fn stops_at<V, P: Fn(&str) -> Option<V>, A: Fn(Operator, V, V) -> V>(
    parse: P,
    apply: A,
    toks: Seq<Seq<char>>,
    i: int,
    stack: Seq<V>,
    e: RpnError,
) -> bool {
    &&& 0 <= i < toks.len()
    &&& reaches(parse, apply, toks.take(i), stack)
    &&& fails_with(parse, toks[i], stack, e)
}

/// Whether `r` is an outcome of evaluating the tokens `toks`.
///
/// A value is the outcome where all tokens can be taken and leave exactly
/// that one value. An evaluation stops at the first token that fails, with
/// that token's error; where no token fails and the stack ends with a number
/// of values other than one, the error holds that number.
pub open spec fn evaluates_to<V, P: Fn(&str) -> Option<V>, A: Fn(Operator, V, V) -> V>(
    parse: P,
    apply: A,
    toks: Seq<Seq<char>>,
    r: Result<V, RpnError>,
) -> bool {
    match r {
        Ok(v) => reaches(parse, apply, toks, seq![v]),
        Err(RpnError::FinalStack(n)) => n != 1 && exists|stack: Seq<V>|
            stack.len() == n && #[trigger] reaches(parse, apply, toks, stack),
        Err(e) => exists|i: int, stack: Seq<V>| stops_at(parse, apply, toks, i, stack, e),
    }
}

/// The stack after a run holds one value for each token, less two for each
/// operator that was applied: every token but those operators pushed one
/// value, and each operator took one away on balance.
pub proof fn lemma_stack_size<V, P: Fn(&str) -> Option<V>, A: Fn(Operator, V, V) -> V>(
    parse: P,
    apply: A,
    toks: Seq<Seq<char>>,
    stack: Seq<V>,
) -> (applied: nat)
    requires
        reaches(parse, apply, toks, stack),
    ensures
        stack.len() + 2 * applied == toks.len(),
    decreases toks.len(),
{
    if toks.len() == 0 {
        0
    } else {
        let prev = choose|prev: Seq<V>|
            #![trigger steps_to(parse, apply, toks.last(), prev, stack)]
            reaches(parse, apply, toks.drop_last(), prev) && steps_to(
                parse,
                apply,
                toks.last(),
                prev,
                stack,
            );
        let before = lemma_stack_size(parse, apply, toks.drop_last(), prev);
        if stack.len() == prev.len() + 1 {
            before
        } else {
            before + 1
        }
    }
}

/// Spacing does not matter to the outcome: white space at either end of an
/// expression, and the length of a run of white space inside it, leave every
/// outcome as it is.
pub proof fn lemma_outcome_ignores_spacing<
    V,
    P: Fn(&str) -> Option<V>,
    A: Fn(Operator, V, V) -> V,
>(
    parse: P,
    apply: A,
    lead: Seq<char>,
    a: Seq<char>,
    gap: Seq<char>,
    other_gap: Seq<char>,
    b: Seq<char>,
    trail: Seq<char>,
    r: Result<V, RpnError>,
)
    requires
        is_blank(lead),
        is_blank(trail),
        is_blank(gap),
        is_blank(other_gap),
        gap.len() > 0,
        other_gap.len() > 0,
    ensures
        evaluates_to(parse, apply, tokens(lead + (a + gap + b) + trail), r) == evaluates_to(
            parse,
            apply,
            tokens(a + other_gap + b),
            r,
        ),
{
    lemma_tokens_blank_ends(lead, a + gap + b, trail);
    lemma_tokens_blank_between(a, gap, other_gap, b);
}

/// Whether `parse` can return only one result for tokens that read alike.
pub open spec fn reads_one_way<V, P: Fn(&str) -> Option<V>>(parse: P) -> bool {
    forall|s: &str, t: &str, a: Option<V>, b: Option<V>|
        s@ == t@ && #[trigger] parse.ensures((s,), a) && #[trigger] parse.ensures((t,), b) ==> a
            == b
}

/// Whether `apply` can return only one result for an operator and two
/// operands.
pub open spec fn combines_one_way<V, A: Fn(Operator, V, V) -> V>(apply: A) -> bool {
    forall|op: Operator, x: V, y: V, a: V, b: V|
        #[trigger] apply.ensures((op, x, y), a) && #[trigger] apply.ensures((op, x, y), b) ==> a
            == b
}

/// Whether two outcomes are the same: the same value, or the same error,
/// an invalid token being the same where it reads the same.
pub open spec fn same_outcome<V>(r1: Result<V, RpnError>, r2: Result<V, RpnError>) -> bool {
    match (r1, r2) {
        (Ok(a), Ok(b)) => a == b,
        (Err(RpnError::InvalidToken(s)), Err(RpnError::InvalidToken(t))) => s@ == t@,
        (Err(a), Err(b)) => a == b,
        _ => false,
    }
}

/// With a reader and an arithmetic that each give one result, a token takes
/// a stack to at most one stack, and does not both take it on and fail.
proof fn lemma_step_unique<V, P: Fn(&str) -> Option<V>, A: Fn(Operator, V, V) -> V>(
    parse: P,
    apply: A,
    token: Seq<char>,
    before: Seq<V>,
    after1: Seq<V>,
    after2: Seq<V>,
    e: RpnError,
)
    requires
        reads_one_way(parse),
        combines_one_way(apply),
        steps_to(parse, apply, token, before, after1),
    ensures
        steps_to(parse, apply, token, before, after2) ==> after1 == after2,
        !fails_with(parse, token, before, e),
{
    let pushed1 = reads_as(parse, token, Some(after1.last()));
    let pushed2 = reads_as(parse, token, Some(after2.last()));
    let unread = reads_as(parse, token, None::<V>);
    if pushed1 && unread {
        let s = choose|s: &str| s@ == token && parse.ensures((s,), Some(after1.last()));
        let t = choose|t: &str| t@ == token && parse.ensures((t,), None::<V>);
        assert(Some(after1.last()) == None::<V>);
    }
    if steps_to(parse, apply, token, before, after2) {
        if pushed2 && unread {
            let s = choose|s: &str| s@ == token && parse.ensures((s,), Some(after2.last()));
            let t = choose|t: &str| t@ == token && parse.ensures((t,), None::<V>);
            assert(Some(after2.last()) == None::<V>);
        }
        if pushed1 && pushed2 {
            let s = choose|s: &str| s@ == token && parse.ensures((s,), Some(after1.last()));
            let t = choose|t: &str| t@ == token && parse.ensures((t,), Some(after2.last()));
            assert(Some(after1.last()) == Some(after2.last()));
        }
        assert(after1.last() == after2.last());
        assert(after1.drop_last() == after2.drop_last());
        assert(after1 =~= after1.drop_last().push(after1.last()));
        assert(after2 =~= after2.drop_last().push(after2.last()));
    }
}

/// With a reader and an arithmetic that each give one result, a sequence of
/// tokens leaves at most one stack.
proof fn lemma_reaches_unique<V, P: Fn(&str) -> Option<V>, A: Fn(Operator, V, V) -> V>(
    parse: P,
    apply: A,
    toks: Seq<Seq<char>>,
    stack1: Seq<V>,
    stack2: Seq<V>,
)
    requires
        reads_one_way(parse),
        combines_one_way(apply),
        reaches(parse, apply, toks, stack1),
        reaches(parse, apply, toks, stack2),
    ensures
        stack1 == stack2,
    decreases toks.len(),
{
    if toks.len() == 0 {
        assert(stack1 =~= stack2);
    } else {
        let prev1 = choose|prev: Seq<V>|
            #![trigger steps_to(parse, apply, toks.last(), prev, stack1)]
            reaches(parse, apply, toks.drop_last(), prev) && steps_to(
                parse,
                apply,
                toks.last(),
                prev,
                stack1,
            );
        let prev2 = choose|prev: Seq<V>|
            #![trigger steps_to(parse, apply, toks.last(), prev, stack2)]
            reaches(parse, apply, toks.drop_last(), prev) && steps_to(
                parse,
                apply,
                toks.last(),
                prev,
                stack2,
            );
        lemma_reaches_unique(parse, apply, toks.drop_last(), prev1, prev2);
        lemma_step_unique(
            parse,
            apply,
            toks.last(),
            prev1,
            stack1,
            stack2,
            RpnError::StackUnderflow,
        );
    }
}

/// Where a sequence of tokens leaves a stack, each of its tokens was taken:
/// the tokens before the one at `i` leave some stack, from which that token
/// takes a step.
proof fn lemma_reaches_through<V, P: Fn(&str) -> Option<V>, A: Fn(Operator, V, V) -> V>(
    parse: P,
    apply: A,
    toks: Seq<Seq<char>>,
    stack: Seq<V>,
    i: int,
) -> (at: (Seq<V>, Seq<V>))
    requires
        reaches(parse, apply, toks, stack),
        0 <= i < toks.len(),
    ensures
        reaches(parse, apply, toks.take(i), at.0),
        steps_to(parse, apply, toks[i], at.0, at.1),
    decreases toks.len(),
{
    let prev = choose|prev: Seq<V>|
        #![trigger steps_to(parse, apply, toks.last(), prev, stack)]
        reaches(parse, apply, toks.drop_last(), prev) && steps_to(
            parse,
            apply,
            toks.last(),
            prev,
            stack,
        );
    if i == toks.len() - 1 {
        assert(toks.take(i) =~= toks.drop_last());
        (prev, stack)
    } else {
        let at = lemma_reaches_through(parse, apply, toks.drop_last(), prev, i);
        assert(toks.drop_last().take(i) =~= toks.take(i));
        at
    }
}

/// With a reader and an arithmetic that each give one result, an evaluation
/// that stops at a token neither gets past that token nor stops elsewhere.
proof fn lemma_stop_unique<V, P: Fn(&str) -> Option<V>, A: Fn(Operator, V, V) -> V>(
    parse: P,
    apply: A,
    toks: Seq<Seq<char>>,
    i: int,
    stack: Seq<V>,
    e: RpnError,
    j: int,
    other: Seq<V>,
)
    requires
        reads_one_way(parse),
        combines_one_way(apply),
        stops_at(parse, apply, toks, i, stack, e),
        i < j <= toks.len(),
    ensures
        !reaches(parse, apply, toks.take(j), other),
{
    if reaches(parse, apply, toks.take(j), other) {
        let at = lemma_reaches_through(parse, apply, toks.take(j), other, i);
        assert(toks.take(j).take(i) =~= toks.take(i));
        lemma_reaches_unique(parse, apply, toks.take(i), stack, at.0);
        lemma_step_unique(parse, apply, toks[i], stack, at.1, at.1, e);
    }
}

/// Evaluation has one outcome: with a reader and an arithmetic that each
/// give one result for the same arguments, any two outcomes of evaluating
/// the same tokens are the same. Evaluating an expression again therefore
/// gives the same value, or the same error, again.
pub proof fn lemma_outcome_unique<V, P: Fn(&str) -> Option<V>, A: Fn(Operator, V, V) -> V>(
    parse: P,
    apply: A,
    toks: Seq<Seq<char>>,
    r1: Result<V, RpnError>,
    r2: Result<V, RpnError>,
)
    requires
        reads_one_way(parse),
        combines_one_way(apply),
        evaluates_to(parse, apply, toks, r1),
        evaluates_to(parse, apply, toks, r2),
    ensures
        same_outcome(r1, r2),
{
    assert(toks.take(toks.len() as int) =~= toks);
    let done1 = lemma_outcome_shape(parse, apply, toks, r1);
    let done2 = lemma_outcome_shape(parse, apply, toks, r2);
    if done1.0 == toks.len() && done2.0 == toks.len() {
        lemma_reaches_unique(parse, apply, toks, done1.1, done2.1);
    } else if done1.0 < done2.0 {
        lemma_stop_unique(parse, apply, toks, done1.0, done1.1, r1->Err_0, done2.0, done2.1);
    } else if done2.0 < done1.0 {
        lemma_stop_unique(parse, apply, toks, done2.0, done2.1, r2->Err_0, done1.0, done1.1);
    } else {
        lemma_reaches_unique(parse, apply, toks.take(done1.0), done1.1, done2.1);
    }
}

/// How far an evaluation with outcome `r` went and what stack it had there:
/// either through all tokens, and `r` tells of the final stack, or up to a
/// token that stopped it with the error in `r`.
proof fn lemma_outcome_shape<V, P: Fn(&str) -> Option<V>, A: Fn(Operator, V, V) -> V>(
    parse: P,
    apply: A,
    toks: Seq<Seq<char>>,
    r: Result<V, RpnError>,
) -> (done: (int, Seq<V>))
    requires
        evaluates_to(parse, apply, toks, r),
    ensures
        0 <= done.0 <= toks.len(),
        reaches(parse, apply, toks.take(done.0), done.1),
        done.0 == toks.len() ==> match r {
            Ok(v) => done.1 == seq![v],
            Err(RpnError::FinalStack(n)) => done.1.len() == n && n != 1,
            Err(_) => false,
        },
        done.0 < toks.len() ==> r is Err && !(r->Err_0 is FinalStack) && stops_at(
            parse,
            apply,
            toks,
            done.0,
            done.1,
            r->Err_0,
        ),
{
    assert(toks.take(toks.len() as int) =~= toks);
    match r {
        Ok(v) => (toks.len() as int, seq![v]),
        Err(RpnError::FinalStack(n)) => {
            let stack = choose|stack: Seq<V>|
                stack.len() == n && #[trigger] reaches(parse, apply, toks, stack);
            (toks.len() as int, stack)
        },
        Err(e) => {
            choose|i: int, stack: Seq<V>| stops_at(parse, apply, toks, i, stack, e)
        },
    }
}

/// Evaluates an expression in reverse Polish notation.
///
/// `parse` reads a token as a number, or returns `None`; `apply` combines
/// two numbers with an operator. Each token is first offered to `parse`; one
/// that it does not read must be one of `+`, `-`, `*`, `/`.
pub fn rpn<V, P, A>(exp: &str, parse: P, apply: A) -> (r: Result<V, RpnError>) where
    P: Fn(&str) -> Option<V>,
    A: Fn(Operator, V, V) -> V,

    requires
        forall|t: &str| parse.requires((t,)),
        forall|op: Operator, x: V, y: V| apply.requires((op, x, y)),
    ensures
        evaluates_to(parse, apply, tokens(exp@), r),
{
    let toks = tokenize(exp);
    let ghost all = tokens(exp@);
    let mut stack: Vec<V> = Vec::new();
    let mut i: usize = 0;
    proof {
        assert(all.take(0) =~= Seq::<Seq<char>>::empty());
    }
    while i < toks.len()
        invariant
            i <= toks.len(),
            views(toks@) == all,
            all == tokens(exp@),
            reaches(parse, apply, all.take(i as int), stack@),
            forall|t: &str| parse.requires((t,)),
            forall|op: Operator, x: V, y: V| apply.requires((op, x, y)),
        decreases toks.len() - i,
    {
        let tok: &str = toks[i];
        let ghost before = stack@;
        proof {
            assert(all[i as int] == tok@);
        }
        match parse(tok) {
            Some(v) => {
                stack.push(v);
                proof {
                    assert(stack@.drop_last() =~= before);
                    assert(steps_to(parse, apply, tok@, before, stack@));
                }
            },
            None => {
                match Operator::from_token(tok) {
                    Some(op) => {
                        let apply_ref = &apply;
                        let combine = |x: V, y: V| -> (z: V)
                            ensures
                                apply_ref.ensures((op, x, y), z),
                            { apply_ref(op, x, y) };
                        match apply2(&mut stack, combine) {
                            Ok(()) => {
                                proof {
                                    assert(steps_to(parse, apply, tok@, before, stack@));
                                }
                            },
                            Err(_) => {
                                proof {
                                    assert(stops_at(
                                        parse,
                                        apply,
                                        all,
                                        i as int,
                                        before,
                                        RpnError::StackUnderflow,
                                    ));
                                }
                                return Err(RpnError::StackUnderflow);
                            },
                        }
                    },
                    None => {
                        let e = RpnError::InvalidToken(tok.to_owned());
                        proof {
                            assert(stops_at(parse, apply, all, i as int, before, e));
                        }
                        return Err(e);
                    },
                }
            },
        }
        proof {
            lemma_reaches_push(parse, apply, all.take(i as int), before, tok@, stack@);
            assert(all.take(i + 1) =~= all.take(i as int).push(tok@));
        }
        i += 1;
    }
    proof {
        assert(all.take(i as int) =~= all);
    }
    if stack.len() == 1 {
        let ghost last = stack@;
        let v = stack.pop().unwrap();
        proof {
            assert(seq![v] =~= last);
        }
        Ok(v)
    } else {
        Err(RpnError::FinalStack(stack.len()))
    }
}

} // verus!
