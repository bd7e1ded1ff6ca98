//! Splitting expression text into tokens.
use vstd::prelude::*;
use crate::error::{Error, Fault};
use crate::text::{alphabetic, is_alphabetic, string_of};

verus! {

/// One lexical unit of an expression.
pub enum Token {
    /// The text of a number literal: digits and points.
    Number(String),
    /// An operator symbol: `+ - * / ^^`, or a lone `^`.
    Operator(String),
    /// A run of letters, whether or not it names a known function.
    Function(String),
    LeftParen,
    RightParen,
}

/// A [`Token`] with its text as a character sequence.
pub ghost enum Lexeme {
    Number(Seq<char>),
    Operator(Seq<char>),
    Function(Seq<char>),
    LeftParen,
    RightParen,
}

impl View for Token {
    type V = Lexeme;

    open spec fn view(&self) -> Lexeme {
        match self {
            Token::Number(t) => Lexeme::Number(t@),
            Token::Operator(t) => Lexeme::Operator(t@),
            Token::Function(t) => Lexeme::Function(t@),
            Token::LeftParen => Lexeme::LeftParen,
            Token::RightParen => Lexeme::RightParen,
        }
    }
}

/// The lexemes of a token sequence.
pub open spec fn lexemes(ts: Seq<Token>) -> Seq<Lexeme> {
    ts.map_values(|t: Token| t@)
}

pub proof fn lemma_lexemes_subrange(v: Seq<Token>, a: int, b: int)
    requires
        0 <= a <= b <= v.len(),
    ensures
        lexemes(v.subrange(a, b)) == lexemes(v).subrange(a, b),
{
    assert(lexemes(v.subrange(a, b)) =~= lexemes(v).subrange(a, b));
}

pub open spec fn is_digit(c: char) -> bool {
    '0' <= c && c <= '9'
}

/// Characters that make up number literals.
pub open spec fn is_numeric(c: char) -> bool {
    is_digit(c) || c == '.'
}

pub open spec fn is_operator_char(c: char) -> bool {
    c == '+' || c == '-' || c == '*' || c == '/' || c == '^'
}

/// The end of the run of number characters that starts at `i`.
pub open spec fn number_end(s: Seq<char>, i: int) -> int
    decreases s.len() - i,
{
    if 0 <= i < s.len() && is_numeric(s[i]) {
        number_end(s, i + 1)
    } else {
        i
    }
}

/// The end of the run of letters that starts at `i`.
pub open spec fn word_end(s: Seq<char>, i: int) -> int
    decreases s.len() - i,
{
    if 0 <= i < s.len() && alphabetic(s[i]) {
        word_end(s, i + 1)
    } else {
        i
    }
}

pub proof fn lemma_number_end(s: Seq<char>, i: int)
    requires
        0 <= i <= s.len(),
    ensures
        i <= number_end(s, i) <= s.len(),
        forall|k: int| i <= k < number_end(s, i) ==> is_numeric(#[trigger] s[k]),
    decreases s.len() - i,
{
    if i < s.len() && is_numeric(s[i]) {
        lemma_number_end(s, i + 1);
    }
}

pub proof fn lemma_word_end(s: Seq<char>, i: int)
    requires
        0 <= i <= s.len(),
    ensures
        i <= word_end(s, i) <= s.len(),
        forall|k: int| i <= k < word_end(s, i) ==> alphabetic(#[trigger] s[k]),
    decreases s.len() - i,
{
    if i < s.len() && alphabetic(s[i]) {
        lemma_word_end(s, i + 1);
    }
}

/// The number of points in `t`.
pub open spec fn count_points(t: Seq<char>) -> nat
    decreases t.len(),
{
    if t.len() == 0 {
        0
    } else {
        count_points(t.drop_last()) + if t.last() == '.' {
            1nat
        } else {
            0nat
        }
    }
}

/// Digits and points that read as a decimal number: at least one digit, at most one point.
pub open spec fn valid_number(t: Seq<char>) -> bool {
    &&& exists|k: int| 0 <= k < t.len() && is_digit(#[trigger] t[k])
    &&& count_points(t) <= 1
}

/// `x` in front of the sequence that `r` holds, or the error of `r`.
pub open spec fn prepend(x: Lexeme, r: Result<Seq<Lexeme>, Fault>) -> Result<Seq<Lexeme>, Fault> {
    match r {
        Ok(rest) => Ok(seq![x] + rest),
        Err(e) => Err(e),
    }
}

/// The lexemes of `s` from position `i` on. Characters that start no lexeme are passed over.
pub open spec fn lex_from(s: Seq<char>, i: int) -> Result<Seq<Lexeme>, Fault>
    decreases s.len() - i,
{
    if i < 0 || i >= s.len() {
        Ok(Seq::empty())
    } else {
        let c = s[i];
        if is_numeric(c) {
            proof {
                lemma_number_end(s, i + 1);
            }
            let j = number_end(s, i + 1);
            let t = s.subrange(i, j);
            if valid_number(t) {
                prepend(Lexeme::Number(t), lex_from(s, j))
            } else {
                Err(Fault::InvalidNumber(t))
            }
        } else if c == '^' && i + 1 < s.len() && s[i + 1] == '^' {
            prepend(Lexeme::Operator(seq!['^', '^']), lex_from(s, i + 2))
        } else if is_operator_char(c) {
            prepend(Lexeme::Operator(seq![c]), lex_from(s, i + 1))
        } else if c == '(' {
            prepend(Lexeme::LeftParen, lex_from(s, i + 1))
        } else if c == ')' {
            prepend(Lexeme::RightParen, lex_from(s, i + 1))
        } else if alphabetic(c) {
            proof {
                lemma_word_end(s, i + 1);
            }
            let j = word_end(s, i + 1);
            prepend(Lexeme::Function(s.subrange(i, j)), lex_from(s, j))
        } else {
            lex_from(s, i + 1)
        }
    }
}

/// The lexemes of a whole expression, or the first malformed number literal.
pub open spec fn lex(s: Seq<char>) -> Result<Seq<Lexeme>, Fault> {
    lex_from(s, 0)
}

/// `pre` in front of what `r` holds.
pub open spec fn after(pre: Seq<Lexeme>, r: Result<Seq<Lexeme>, Fault>) -> Result<Seq<Lexeme>, Fault> {
    match r {
        Ok(rest) => Ok(pre + rest),
        Err(e) => Err(e),
    }
}

proof fn lemma_after_prepend(pre: Seq<Lexeme>, x: Lexeme, r: Result<Seq<Lexeme>, Fault>)
    ensures
        after(pre, prepend(x, r)) == after(pre.push(x), r),
{
    if let Ok(rest) = r {
        assert(pre + (seq![x] + rest) =~= pre.push(x) + rest);
    }
}

/// Whether a number literal is well formed, checked character by character.
fn check_number(t: &Vec<char>) -> (r: bool)
    ensures
        r == valid_number(t@),
{
    let mut points: usize = 0;
    let mut digit = false;
    let mut k: usize = 0;
    while k < t.len()
        invariant
            k <= t@.len(),
            points == count_points(t@.subrange(0, k as int)),
            points <= k,
            digit == exists|j: int| 0 <= j < k && is_digit(#[trigger] t@[j]),
        decreases t.len() - k,
    {
        assert(t@.subrange(0, k + 1).drop_last() =~= t@.subrange(0, k as int));
        if t[k] == '.' {
            points = points + 1;
        }
        if '0' <= t[k] && t[k] <= '9' {
            digit = true;
        }
        k = k + 1;
    }
    assert(t@.subrange(0, t@.len() as int) =~= t@);
    digit && points <= 1
}

/// Splits an expression into tokens. Fails on the first number literal that is malformed.
pub fn get_tokens(input: &str) -> (r: Result<Vec<Token>, Error>)
    ensures
        match r {
            Ok(ts) => lex(input@) == Ok::<Seq<Lexeme>, Fault>(lexemes(ts@)),
            Err(e) => lex(input@) == Err::<Seq<Lexeme>, Fault>(e@),
        },
{
    let s = crate::text::chars_of(input);
    let n = s.len();
    let mut tokens: Vec<Token> = Vec::new();
    let mut i: usize = 0;
    while i < n
        invariant
            n == s@.len(),
            s@ == input@,
            i <= n,
            lex(s@) == after(lexemes(tokens@), lex_from(s@, i as int)),
        decreases n - i,
    {
        let c = s[i];
        let ghost pre = lexemes(tokens@);
        if c == '.' || ('0' <= c && c <= '9') {
            let mut t: Vec<char> = Vec::new();
            let start = i;
            while i < n && (s[i] == '.' || ('0' <= s[i] && s[i] <= '9'))
                invariant
                    n == s@.len(),
                    start < n,
                    start <= i <= n,
                    t@ == s@.subrange(start as int, i as int),
                    number_end(s@, start + 1) == number_end(s@, i as int) || i == start,
                    i == start ==> is_numeric(s@[start as int]),
                decreases n - i,
            {
                t.push(s[i]);
                i = i + 1;
                assert(t@ =~= s@.subrange(start as int, i as int));
            }
            if !check_number(&t) {
                return Err(Error::InvalidNumber(string_of(&t)));
            }
            let tok = Token::Number(string_of(&t));
            proof {
                lemma_after_prepend(pre, tok@, lex_from(s@, i as int));
            }
            tokens.push(tok);
            assert(lexemes(tokens@) =~= pre.push(tok@));
        } else if c == '+' || c == '-' || c == '*' || c == '/' || c == '^' {
            let tok = if c == '^' && i + 1 < n && s[i + 1] == '^' {
                i = i + 2;
                let v = vec!['^', '^'];
                assert(v@ =~= seq!['^', '^']);
                Token::Operator(string_of(&v))
            } else {
                i = i + 1;
                let v = vec![c];
                assert(v@ =~= seq![c]);
                Token::Operator(string_of(&v))
            };
            proof {
                lemma_after_prepend(pre, tok@, lex_from(s@, i as int));
            }
            tokens.push(tok);
            assert(lexemes(tokens@) =~= pre.push(tok@));
        } else if c == '(' || c == ')' {
            let tok = if c == '(' {
                Token::LeftParen
            } else {
                Token::RightParen
            };
            i = i + 1;
            proof {
                lemma_after_prepend(pre, tok@, lex_from(s@, i as int));
            }
            tokens.push(tok);
            assert(lexemes(tokens@) =~= pre.push(tok@));
        } else if is_alphabetic(c) {
            let mut t: Vec<char> = Vec::new();
            let start = i;
            while i < n && is_alphabetic(s[i])
                invariant
                    n == s@.len(),
                    start < n,
                    start <= i <= n,
                    t@ == s@.subrange(start as int, i as int),
                    word_end(s@, start + 1) == word_end(s@, i as int) || i == start,
                    i == start ==> alphabetic(s@[start as int]),
                decreases n - i,
            {
                t.push(s[i]);
                i = i + 1;
                assert(t@ =~= s@.subrange(start as int, i as int));
            }
            let tok = Token::Function(string_of(&t));
            proof {
                lemma_after_prepend(pre, tok@, lex_from(s@, i as int));
            }
            tokens.push(tok);
            assert(lexemes(tokens@) =~= pre.push(tok@));
        } else {
            i = i + 1;
        }
    }
    assert(after(lexemes(tokens@), lex_from(s@, n as int)) == Ok::<Seq<Lexeme>, Fault>(
        lexemes(tokens@) + Seq::<Lexeme>::empty(),
    ));
    assert(lexemes(tokens@) + Seq::<Lexeme>::empty() =~= lexemes(tokens@));
    Ok(tokens)
}

} // verus!
