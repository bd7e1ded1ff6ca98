//! Operator precedence and the conversion of infix tokens to postfix order.
use vstd::prelude::*;
use crate::error::{Error, Fault};
use crate::lexer::{Lexeme, Token, lemma_lexemes_subrange, lexemes};

verus! {

/// The precedence of an operator symbol: `+ -` bind loosest, `^^` tightest.
pub open spec fn precedence(op: Seq<char>) -> Option<nat> {
    if op == seq!['+'] || op == seq!['-'] {
        Some(1)
    } else if op == seq!['*'] || op == seq!['/'] {
        Some(2)
    } else if op == seq!['^', '^'] {
        Some(3)
    } else {
        None
    }
}

/// Whether an operator groups from the left; `^^` groups from the right.
pub open spec fn left_associative(op: Seq<char>) -> Option<bool> {
    if op == seq!['+'] || op == seq!['-'] || op == seq!['*'] || op == seq!['/'] {
        Some(true)
    } else if op == seq!['^', '^'] {
        Some(false)
    } else {
        None
    }
}

/// Which of the known operators `op` is: 0 for none of them.
fn classify(op: &str) -> (r: u8)
    ensures
        r == 1 <==> (op@ == seq!['+'] || op@ == seq!['-']),
        r == 2 <==> (op@ == seq!['*'] || op@ == seq!['/']),
        r == 3 <==> op@ == seq!['^', '^'],
        r <= 3,
{
    let n = op.unicode_len();
    if n == 1 {
        let c = op.get_char(0);
        assert(op@ =~= seq![c]);
        if c == '+' || c == '-' {
            return 1;
        } else if c == '*' || c == '/' {
            return 2;
        }
        0
    } else if n == 2 && op.get_char(0) == '^' && op.get_char(1) == '^' {
        assert(op@ =~= seq!['^', '^']);
        3
    } else {
        assert(op@ != seq!['^', '^']) by {
            if n == 2 {
                assert(seq!['^', '^'][0] == '^' && seq!['^', '^'][1] == '^');
            }
        }
        assert(op@.len() != 1 ==> op@ != seq!['+'] && op@ != seq!['-'] && op@ != seq!['*']
            && op@ != seq!['/']);
        0
    }
}

/// The precedence of an operator symbol, or an error for a symbol that has none.
pub fn get_precedence(operator: &str) -> (r: Result<usize, Error>)
    ensures
        match precedence(operator@) {
            Some(p) => r == Ok::<usize, Error>(p as usize),
            None => r matches Err(e) && e@ == Fault::UnknownOperator(operator@),
        },
{
    match classify(operator) {
        1 => Ok(1),
        2 => Ok(2),
        3 => Ok(3),
        _ => Err(Error::UnknownOperator(String::from_str(operator))),
    }
}

/// Whether an operator groups from the left, or an error for an unknown symbol.
pub fn is_left_associative(operator: &str) -> (r: Result<bool, Error>)
    ensures
        match left_associative(operator@) {
            Some(b) => r == Ok::<bool, Error>(b),
            None => r matches Err(e) && e@ == Fault::UnknownOperator(operator@),
        },
{
    match classify(operator) {
        1 | 2 => Ok(true),
        3 => Ok(false),
        _ => Err(Error::UnknownOperator(String::from_str(operator))),
    }
}

/// The state of the conversion to postfix order: the output so far and the operator stack.
pub type Yard = (Seq<Lexeme>, Seq<Lexeme>);

/// Moves operators from the top of the stack to the output while they bind at least as
/// tightly as an incoming operator of precedence `p` (strictly more tightly where it
/// groups from the right).
pub open spec fn pop_operators(y: Yard, p: nat, left: bool) -> Yard
    decreases y.1.len(),
{
    let (out, stack) = y;
    if stack.len() == 0 {
        y
    } else {
        match stack.last() {
            Lexeme::Operator(t) => match precedence(t) {
                Some(q) => if q > p || (q == p && left) {
                    pop_operators((out.push(stack.last()), stack.drop_last()), p, left)
                } else {
                    y
                },
                None => y,
            },
            _ => y,
        }
    }
}

/// Moves operators to the output down to the nearest `(`, which is dropped; fails where
/// the stack holds none.
pub open spec fn close_group(y: Yard) -> Result<Yard, Fault>
    decreases y.1.len(),
{
    let (out, stack) = y;
    if stack.len() == 0 {
        Err(Fault::MismatchedParentheses)
    } else if stack.last() is LeftParen {
        Ok((out, stack.drop_last()))
    } else {
        close_group((out.push(stack.last()), stack.drop_last()))
    }
}

/// One token of the conversion to postfix order.
pub open spec fn yard_step(y: Yard, tok: Lexeme) -> Result<Yard, Fault> {
    let (out, stack) = y;
    match tok {
        Lexeme::Number(_) => Ok((out.push(tok), stack)),
        Lexeme::Function(_) => Ok((out, stack.push(tok))),
        Lexeme::Operator(t) => match (precedence(t), left_associative(t)) {
            (Some(p), Some(left)) => {
                let (o, s) = pop_operators(y, p, left);
                Ok((o, s.push(tok)))
            },
            _ => Err(Fault::UnknownOperator(t)),
        },
        Lexeme::LeftParen => Ok((out, stack.push(tok))),
        Lexeme::RightParen => match close_group(y) {
            Err(e) => Err(e),
            Ok((o, s)) => if s.len() > 0 && s.last() is Function {
                Ok((o.push(s.last()), s.drop_last()))
            } else {
                Ok((o, s))
            },
        },
    }
}

/// The state after all of `ts` has been read.
pub open spec fn yard_run(ts: Seq<Lexeme>) -> Result<Yard, Fault>
    decreases ts.len(),
{
    if ts.len() == 0 {
        Ok((Seq::empty(), Seq::empty()))
    } else {
        match yard_run(ts.drop_last()) {
            Err(e) => Err(e),
            Ok(y) => yard_step(y, ts.last()),
        }
    }
}

/// Empties the stack onto the output; a parenthesis left on it is unmatched.
pub open spec fn yard_finish(y: Yard) -> Result<Seq<Lexeme>, Fault>
    decreases y.1.len(),
{
    let (out, stack) = y;
    if stack.len() == 0 {
        Ok(out)
    } else if stack.last() is LeftParen || stack.last() is RightParen {
        Err(Fault::MismatchedParentheses)
    } else {
        yard_finish((out.push(stack.last()), stack.drop_last()))
    }
}

/// The postfix order of an infix token sequence, or why it has none.
pub open spec fn postfix(ts: Seq<Lexeme>) -> Result<Seq<Lexeme>, Fault> {
    match yard_run(ts) {
        Err(e) => Err(e),
        Ok(y) => yard_finish(y),
    }
}

proof fn lemma_lexemes_push(v: Seq<Token>, x: Token)
    ensures
        lexemes(v.push(x)) == lexemes(v).push(x@),
{
    assert(lexemes(v.push(x)) =~= lexemes(v).push(x@));
}

proof fn lemma_lexemes_drop_last(v: Seq<Token>)
    requires
        v.len() > 0,
    ensures
        lexemes(v.drop_last()) == lexemes(v).drop_last(),
        lexemes(v).last() == v.last()@,
{
    assert(lexemes(v.drop_last()) =~= lexemes(v).drop_last());
}

/// Once the conversion has failed on a prefix, it fails with the same error on the whole.
proof fn lemma_run_error_stays(ts: Seq<Lexeme>, k: int)
    requires
        0 <= k <= ts.len(),
        yard_run(ts.subrange(0, k)) is Err,
    ensures
        yard_run(ts) == yard_run(ts.subrange(0, k)),
    decreases ts.len() - k,
{
    if k < ts.len() {
        assert(ts.subrange(0, k + 1).drop_last() =~= ts.subrange(0, k));
        lemma_run_error_stays(ts, k + 1);
    } else {
        assert(ts.subrange(0, k) =~= ts);
    }
}

/// Moves the top of `from` onto `to`.
fn move_top(from: &mut Vec<Token>, to: &mut Vec<Token>)
    requires
        old(from)@.len() > 0,
    ensures
        lexemes(final(from)@) == lexemes(old(from)@).drop_last(),
        lexemes(final(to)@) == lexemes(old(to)@).push(lexemes(old(from)@).last()),
        final(from)@.len() == old(from)@.len() - 1,
{
    proof {
        lemma_lexemes_drop_last(from@);
    }
    let top = from.pop().unwrap();
    proof {
        lemma_lexemes_push(to@, top);
    }
    to.push(top);
}

/// Reorders infix tokens into postfix order by the shunting-yard method. Fails on an
/// operator with no precedence and on parentheses that do not match.
#[verifier::loop_isolation(false)]
pub fn shunting_yard(tokens: Vec<Token>) -> (r: Result<Vec<Token>, Error>)
    ensures
        match r {
            Ok(out) => postfix(lexemes(tokens@)) == Ok::<Seq<Lexeme>, Fault>(lexemes(out@)),
            Err(e) => postfix(lexemes(tokens@)) == Err::<Seq<Lexeme>, Fault>(e@),
        },
{
    let ghost all = lexemes(tokens@);
    let mut rest = tokens;
    let mut output_queue: Vec<Token> = Vec::new();
    let mut operator_stack: Vec<Token> = Vec::new();
    let ghost mut k: int = 0;
    assert(all.subrange(0, 0) =~= Seq::<Lexeme>::empty());
    assert(lexemes(output_queue@) =~= Seq::<Lexeme>::empty());
    assert(lexemes(operator_stack@) =~= Seq::<Lexeme>::empty());
    while rest.len() > 0
        invariant
            0 <= k <= all.len(),
            lexemes(rest@) == all.subrange(k, all.len() as int),
            yard_run(all.subrange(0, k)) == Ok::<Yard, Fault>(
                (lexemes(output_queue@), lexemes(operator_stack@)),
            ),
        decreases rest.len(),
    {
        let ghost old_rest = rest@;
        proof {
            assert(lexemes(rest@).len() == rest@.len());
            assert(lexemes(rest@)[0] == rest@[0]@);
        }
        let token = rest.remove(0);
        let ghost y = (lexemes(output_queue@), lexemes(operator_stack@));
        proof {
            assert(rest@ =~= old_rest.subrange(1, old_rest.len() as int));
            lemma_lexemes_subrange(old_rest, 1, old_rest.len() as int);
            assert(lexemes(rest@) =~= all.subrange(k + 1, all.len() as int));
            assert(all[k] == token@);
            assert(all.subrange(0, k + 1).drop_last() =~= all.subrange(0, k));
            assert(all.subrange(0, k + 1).last() == token@);
            assert(yard_run(all.subrange(0, k + 1)) == yard_step(y, token@));
            k = k + 1;
        }
        match &token {
            Token::Number(_) => {
                proof {
                    lemma_lexemes_push(output_queue@, token);
                }
                output_queue.push(token);
            },
            Token::Function(_) | Token::LeftParen => {
                proof {
                    lemma_lexemes_push(operator_stack@, token);
                }
                operator_stack.push(token);
            },
            Token::Operator(op) => {
                let current_precedence = match get_precedence(op.as_str()) {
                    Ok(p) => p,
                    Err(e) => {
                        proof {
                            lemma_run_error_stays(all, k);
                        }
                        return Err(e);
                    },
                };
                let left_associative = match is_left_associative(op.as_str()) {
                    Ok(b) => b,
                    Err(e) => {
                        proof {
                            lemma_run_error_stays(all, k);
                        }
                        return Err(e);
                    },
                };
                loop
                    invariant
                        pop_operators(y, current_precedence as nat, left_associative)
                            == pop_operators(
                            (lexemes(output_queue@), lexemes(operator_stack@)),
                            current_precedence as nat,
                            left_associative,
                        ),
                    decreases operator_stack.len(),
                {
                    let n = operator_stack.len();
                    if n == 0 {
                        break;
                    }
                    proof {
                        lemma_lexemes_drop_last(operator_stack@);
                    }
                    let pops = match &operator_stack[n - 1] {
                        Token::Operator(top_op) => match get_precedence(top_op.as_str()) {
                            Ok(top_precedence) => top_precedence > current_precedence || (
                            top_precedence == current_precedence && left_associative),
                            Err(_) => false,
                        },
                        _ => false,
                    };
                    if !pops {
                        break;
                    }
                    move_top(&mut operator_stack, &mut output_queue);
                }
                proof {
                    lemma_lexemes_push(operator_stack@, token);
                }
                operator_stack.push(token);
            },
            Token::RightParen => {
                loop
                    invariant
                        close_group(y) == close_group(
                            (lexemes(output_queue@), lexemes(operator_stack@)),
                        ),
                    decreases operator_stack.len(),
                {
                    let n = operator_stack.len();
                    if n == 0 {
                        proof {
                            lemma_run_error_stays(all, k);
                        }
                        return Err(Error::MismatchedParentheses);
                    }
                    proof {
                        lemma_lexemes_drop_last(operator_stack@);
                    }
                    if let Token::LeftParen = &operator_stack[n - 1] {
                        break;
                    }
                    move_top(&mut operator_stack, &mut output_queue);
                }
                let _ = operator_stack.pop();
                let n = operator_stack.len();
                if n > 0 {
                    proof {
                        lemma_lexemes_drop_last(operator_stack@);
                    }
                    if let Token::Function(_) = &operator_stack[n - 1] {
                        move_top(&mut operator_stack, &mut output_queue);
                    }
                }
            },
        }
    }
    assert(all.subrange(0, all.len() as int) =~= all);
    loop
        invariant
            yard_finish((lexemes(output_queue@), lexemes(operator_stack@))) == postfix(all),
        decreases operator_stack.len(),
    {
        let n = operator_stack.len();
        if n == 0 {
            break;
        }
        proof {
            lemma_lexemes_drop_last(operator_stack@);
        }
        match &operator_stack[n - 1] {
            Token::LeftParen | Token::RightParen => {
                return Err(Error::MismatchedParentheses);
            },
            _ => {},
        }
        move_top(&mut operator_stack, &mut output_queue);
    }
    Ok(output_queue)
}

/// The number of `(` in a sequence of lexemes.
pub open spec fn opens(s: Seq<Lexeme>) -> int
    decreases s.len(),
{
    if s.len() == 0 {
        0
    } else {
        opens(s.drop_last()) + if s.last() is LeftParen {
            1int
        } else {
            0int
        }
    }
}

/// The number of `)` in a sequence of lexemes.
pub open spec fn closes(s: Seq<Lexeme>) -> int
    decreases s.len(),
{
    if s.len() == 0 {
        0
    } else {
        closes(s.drop_last()) + if s.last() is RightParen {
            1int
        } else {
            0int
        }
    }
}

/// No prefix of `ts` closes more parentheses than it opens.
pub open spec fn never_overclosed(ts: Seq<Lexeme>) -> bool {
    forall|k: int| 0 <= k <= ts.len() ==> opens(#[trigger] ts.subrange(0, k)) >= closes(
        ts.subrange(0, k),
    )
}

/// Every `(` of `ts` has its `)` and every `)` its `(`.
pub open spec fn balanced(ts: Seq<Lexeme>) -> bool {
    never_overclosed(ts) && opens(ts) == closes(ts)
}

/// Every operator of `ts` has a precedence.
pub open spec fn known_operators(ts: Seq<Lexeme>) -> bool {
    forall|i: int|
        0 <= i < ts.len() ==> (#[trigger] ts[i] matches Lexeme::Operator(t) ==> precedence(
            t,
        ) is Some)
}

proof fn lemma_pop_keeps_parens(y: Yard, p: nat, left: bool)
    ensures
        opens(pop_operators(y, p, left).1) == opens(y.1),
        closes(pop_operators(y, p, left).1) == closes(y.1),
    decreases y.1.len(),
{
    let (out, stack) = y;
    if stack.len() > 0 {
        if let Lexeme::Operator(t) = stack.last() {
            if let Some(q) = precedence(t) {
                if q > p || (q == p && left) {
                    lemma_pop_keeps_parens((out.push(stack.last()), stack.drop_last()), p, left);
                }
            }
        }
    }
}

proof fn lemma_close_group(y: Yard)
    requires
        closes(y.1) == 0,
        opens(y.1) >= 0,
    ensures
        opens(y.1) == 0 ==> close_group(y) == Err::<Yard, Fault>(Fault::MismatchedParentheses),
        opens(y.1) > 0 ==> (close_group(y) matches Ok(z) && opens(z.1) == opens(y.1) - 1
            && closes(z.1) == 0),
    decreases y.1.len(),
{
    let (out, stack) = y;
    if stack.len() > 0 {
        lemma_counts_nonnegative(stack.drop_last());
        if !(stack.last() is LeftParen) {
            lemma_close_group((out.push(stack.last()), stack.drop_last()));
        }
    }
}

proof fn lemma_counts_nonnegative(s: Seq<Lexeme>)
    ensures
        opens(s) >= 0,
        closes(s) >= 0,
    decreases s.len(),
{
    if s.len() > 0 {
        lemma_counts_nonnegative(s.drop_last());
    }
}

proof fn lemma_finish(y: Yard)
    requires
        closes(y.1) == 0,
    ensures
        opens(y.1) == 0 ==> yard_finish(y) is Ok,
        opens(y.1) > 0 ==> yard_finish(y) == Err::<Seq<Lexeme>, Fault>(
            Fault::MismatchedParentheses,
        ),
    decreases y.1.len(),
{
    let (out, stack) = y;
    if stack.len() > 0 {
        lemma_counts_nonnegative(stack.drop_last());
        if !(stack.last() is LeftParen) {
            lemma_finish((out.push(stack.last()), stack.drop_last()));
        }
    }
}

proof fn lemma_run_parens(ts: Seq<Lexeme>)
    requires
        known_operators(ts),
    ensures
        never_overclosed(ts) ==> (yard_run(ts) matches Ok(y) && opens(y.1) == opens(ts) - closes(
            ts,
        ) && closes(y.1) == 0),
        !never_overclosed(ts) ==> yard_run(ts) == Err::<Yard, Fault>(
            Fault::MismatchedParentheses,
        ),
    decreases ts.len(),
{
    if ts.len() == 0 {
        assert(ts.subrange(0, 0) =~= ts);
    } else {
        let pre = ts.drop_last();
        let x = ts.last();
        assert(known_operators(pre)) by {
            assert forall|i: int| 0 <= i < pre.len() implies (#[trigger] pre[i] matches Lexeme::Operator(
                t,
            ) ==> precedence(t) is Some) by {
                assert(pre[i] == ts[i]);
            }
        }
        lemma_run_parens(pre);
        assert(ts.subrange(0, ts.len() as int) =~= ts);
        assert forall|k: int| 0 <= k <= pre.len() implies #[trigger] ts.subrange(0, k)
            == pre.subrange(0, k) by {
            assert(ts.subrange(0, k) =~= pre.subrange(0, k));
        }
        assert(never_overclosed(ts) <==> (never_overclosed(pre) && opens(ts) >= closes(ts))) by {
            if never_overclosed(pre) && opens(ts) >= closes(ts) {
                assert forall|k: int| 0 <= k <= ts.len() implies opens(
                    #[trigger] ts.subrange(0, k),
                ) >= closes(ts.subrange(0, k)) by {
                    if k <= pre.len() {
                        assert(pre.subrange(0, k) == ts.subrange(0, k));
                    }
                }
            }
            if never_overclosed(ts) {
                assert forall|k: int| 0 <= k <= pre.len() implies opens(
                    #[trigger] pre.subrange(0, k),
                ) >= closes(pre.subrange(0, k)) by {
                    assert(pre.subrange(0, k) == ts.subrange(0, k));
                }
                assert(opens(ts.subrange(0, ts.len() as int)) >= closes(
                    ts.subrange(0, ts.len() as int),
                ));
            }
        }
        if never_overclosed(pre) {
            let y = yard_run(pre)->Ok_0;
            let (out, stack) = y;
            lemma_counts_nonnegative(stack);
            match x {
                Lexeme::Operator(t) => {
                    assert(ts[ts.len() - 1] == x);
                    let p = precedence(t)->Some_0;
                    let left = left_associative(t)->Some_0;
                    lemma_pop_keeps_parens(y, p, left);
                    let z = pop_operators(y, p, left);
                    assert(z.1.push(x).drop_last() =~= z.1);
                },
                Lexeme::RightParen => {
                    lemma_close_group(y);
                    if opens(stack) > 0 {
                        let z = close_group(y)->Ok_0;
                        if z.1.len() > 0 && z.1.last() is Function {
                            assert(z.1.drop_last().push(z.1.last()) =~= z.1);
                        }
                    }
                },
                Lexeme::Number(_) => {},
                _ => {
                    assert(stack.push(x).drop_last() =~= stack);
                },
            }
        }
    }
}

/// Parentheses decide the conversion to postfix order where all operators are known: it
/// succeeds exactly when the parentheses match, and otherwise fails with a
/// mismatched-parenthesis error.
pub proof fn lemma_parentheses_decide(ts: Seq<Lexeme>)
    requires
        known_operators(ts),
    ensures
        balanced(ts) ==> postfix(ts) is Ok,
        !balanced(ts) ==> postfix(ts) == Err::<Seq<Lexeme>, Fault>(Fault::MismatchedParentheses),
{
    lemma_run_parens(ts);
    if never_overclosed(ts) {
        let y = yard_run(ts)->Ok_0;
        lemma_finish(y);
        assert(ts.subrange(0, ts.len() as int) =~= ts);
    }
}

} // verus!
