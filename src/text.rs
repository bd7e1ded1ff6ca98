//! Character-sequence utilities: search, first-occurrence replacement, and layout.
use vstd::prelude::*;

verus! {

/// Whether `c` is a letter in Unicode's sense (`char::is_alphabetic`).
pub uninterp spec fn alphabetic(c: char) -> bool;

/// Relies on `char::is_alphabetic`: its answer depends on the character alone.
#[verifier::external_body]
pub(crate) fn is_alphabetic(c: char) -> (r: bool)
    ensures
        r == alphabetic(c),
{
    c.is_alphabetic()
}

/// Relies on `String: FromIterator<char>`: the string holds the characters in order.
#[verifier::external_body]
pub(crate) fn string_of(v: &Vec<char>) -> (r: String)
    ensures
        r@ == v@,
{
    v.iter().collect()
}

/// The characters of `s`, in order.
pub fn chars_of(s: &str) -> (r: Vec<char>)
    ensures
        r@ == s@,
{
    let n = s.unicode_len();
    let mut r: Vec<char> = Vec::new();
    let mut i: usize = 0;
    while i < n
        invariant
            n == s@.len(),
            i <= n,
            r@ == s@.subrange(0, i as int),
        decreases n - i,
    {
        r.push(s.get_char(i));
        i = i + 1;
        assert(r@ =~= s@.subrange(0, i as int));
    }
    assert(r@ =~= s@);
    r
}

/// Appends `src` to `dst`.
pub fn extend(dst: &mut Vec<char>, src: &Vec<char>)
    ensures
        final(dst)@ == old(dst)@ + src@,
{
    let mut i: usize = 0;
    while i < src.len()
        invariant
            i <= src@.len(),
            dst@ == old(dst)@ + src@.subrange(0, i as int),
        decreases src.len() - i,
    {
        dst.push(src[i]);
        i = i + 1;
        assert(dst@ =~= old(dst)@ + src@.subrange(0, i as int));
    }
    assert(src@.subrange(0, src@.len() as int) =~= src@);
}

/// `s` with every space left out.
pub open spec fn without_spaces(s: Seq<char>) -> Seq<char>
    decreases s.len(),
{
    if s.len() == 0 {
        s
    } else if s.last() == ' ' {
        without_spaces(s.drop_last())
    } else {
        without_spaces(s.drop_last()).push(s.last())
    }
}

/// Removes every space from an expression, as it is read from the command line.
pub fn strip_spaces(s: &str) -> (r: String)
    ensures
        r@ == without_spaces(s@),
{
    let v = chars_of(s);
    let mut out: Vec<char> = Vec::new();
    let mut i: usize = 0;
    while i < v.len()
        invariant
            i <= v@.len(),
            out@ == without_spaces(v@.subrange(0, i as int)),
        decreases v.len() - i,
    {
        assert(v@.subrange(0, i + 1).drop_last() =~= v@.subrange(0, i as int));
        if v[i] != ' ' {
            out.push(v[i]);
        }
        i = i + 1;
    }
    assert(v@.subrange(0, v@.len() as int) =~= v@);
    string_of(&out)
}

/// Whether `p` stands in `s` from position `i` on.
pub open spec fn occurs_at(s: Seq<char>, p: Seq<char>, i: int) -> bool {
    0 <= i && i + p.len() <= s.len() && s.subrange(i, i + p.len()) == p
}

/// The first position at or after `i` where `p` stands in `s`.
pub open spec fn find_from(s: Seq<char>, p: Seq<char>, i: int) -> Option<int>
    decreases s.len() + 1 - i,
{
    if i < 0 || i + p.len() > s.len() {
        None
    } else if occurs_at(s, p, i) {
        Some(i)
    } else {
        find_from(s, p, i + 1)
    }
}

/// The first position where `p` stands in `s`.
pub open spec fn find_first(s: Seq<char>, p: Seq<char>) -> Option<int> {
    find_from(s, p, 0)
}

/// `s` with the first occurrence of `p` replaced by `r`, or `s` itself where `p` is absent.
pub open spec fn replace_first(s: Seq<char>, p: Seq<char>, r: Seq<char>) -> Seq<char> {
    match find_first(s, p) {
        Some(i) => s.subrange(0, i) + r + s.subrange(i + p.len(), s.len() as int),
        None => s,
    }
}

pub proof fn lemma_find_from_is_first(s: Seq<char>, p: Seq<char>, i: int)
    requires
        0 <= i,
    ensures
        find_from(s, p, i) matches Some(k) ==> i <= k && occurs_at(s, p, k)
            && forall|j: int| i <= j < k ==> !occurs_at(s, p, j),
        find_from(s, p, i) is None ==> forall|j: int| i <= j ==> !occurs_at(s, p, j),
    decreases s.len() + 1 - i,
{
    if i + p.len() > s.len() {
    } else if occurs_at(s, p, i) {
    } else {
        lemma_find_from_is_first(s, p, i + 1);
    }
}

/// Whether `p` stands in `s` from position `i` on, checked character by character.
fn matches_at(s: &Vec<char>, p: &Vec<char>, i: usize) -> (r: bool)
    requires
        i + p@.len() <= s@.len(),
    ensures
        r == occurs_at(s@, p@, i as int),
{
    let n = s.len();
    let mut k: usize = 0;
    while k < p.len()
        invariant
            i + p@.len() <= s@.len(),
            n == s@.len(),
            k <= p@.len(),
            forall|j: int| 0 <= j < k ==> s@[i + j] == p@[j],
        decreases p.len() - k,
    {
        if s[i + k] != p[k] {
            assert(s@.subrange(i as int, i + p@.len())[k as int] != p@[k as int]);
            return false;
        }
        k = k + 1;
    }
    assert(s@.subrange(i as int, i + p@.len()) =~= p@);
    true
}

/// The first position where `p` stands in `s`.
pub fn find(s: &Vec<char>, p: &Vec<char>) -> (r: Option<usize>)
    ensures
        r matches Some(k) ==> find_first(s@, p@) == Some(k as int) && occurs_at(s@, p@, k as int),
        r is None ==> find_first(s@, p@) is None,
{
    proof {
        lemma_find_from_is_first(s@, p@, 0);
    }
    if p.len() > s.len() {
        return None;
    }
    let last = s.len() - p.len();
    let mut i: usize = 0;
    loop
        invariant
            p@.len() <= s@.len(),
            last == s@.len() - p@.len(),
            i <= last,
            find_from(s@, p@, 0) == find_from(s@, p@, i as int),
        decreases last - i,
    {
        if matches_at(s, p, i) {
            return Some(i);
        }
        if i == last {
            assert(find_from(s@, p@, i + 1) is None);
            return None;
        }
        i = i + 1;
    }
}

/// Replaces the first occurrence of `p` in `s` by `r`; leaves `s` as it is where `p` is absent.
pub fn replace_first_in(s: &Vec<char>, p: &Vec<char>, r: &Vec<char>) -> (out: Vec<char>)
    ensures
        out@ == replace_first(s@, p@, r@),
{
    match find(s, p) {
        None => s.clone(),
        Some(k) => {
            let mut out: Vec<char> = Vec::new();
            let mut i: usize = 0;
            while i < k
                invariant
                    k + p@.len() <= s@.len(),
                    i <= k,
                    out@ == s@.subrange(0, i as int),
                decreases k - i,
            {
                out.push(s[i]);
                i = i + 1;
                assert(out@ =~= s@.subrange(0, i as int));
            }
            let mut j: usize = 0;
            while j < r.len()
                invariant
                    k + p@.len() <= s@.len(),
                    out@ == s@.subrange(0, k as int) + r@.subrange(0, j as int),
                    j <= r@.len(),
                decreases r.len() - j,
            {
                out.push(r[j]);
                j = j + 1;
                assert(out@ =~= s@.subrange(0, k as int) + r@.subrange(0, j as int));
            }
            let n = s.len();
            assert(k + p@.len() <= n);
            let mut i: usize = k + p.len();
            while i < s.len()
                invariant
                    k + p@.len() <= i <= s@.len(),
                    out@ == s@.subrange(0, k as int) + r@ + s@.subrange(
                        k + p@.len(),
                        i as int,
                    ),
                decreases s.len() - i,
            {
                out.push(s[i]);
                i = i + 1;
                assert(out@ =~= s@.subrange(0, k as int) + r@ + s@.subrange(
                    k + p@.len(),
                    i as int,
                ));
            }
            proof {
                assert(r@.subrange(0, r@.len() as int) =~= r@);
                lemma_find_from_is_first(s@, p@, 0);
            }
            out
        },
    }
}

/// `s` with one space put on either side of each operator symbol `+ - * / ^^`, reading
/// from position `i` on.
pub open spec fn spaced_from(s: Seq<char>, i: int) -> Seq<char>
    decreases s.len() - i,
{
    if i < 0 || i >= s.len() {
        Seq::empty()
    } else if s[i] == '^' && i + 1 < s.len() && s[i + 1] == '^' {
        seq![' ', '^', '^', ' '] + spaced_from(s, i + 2)
    } else if s[i] == '+' || s[i] == '-' || s[i] == '*' || s[i] == '/' {
        seq![' ', s[i], ' '] + spaced_from(s, i + 1)
    } else {
        seq![s[i]] + spaced_from(s, i + 1)
    }
}

/// An expression laid out for reading, with spaces round its operators.
pub open spec fn spaced(s: Seq<char>) -> Seq<char> {
    spaced_from(s, 0)
}

/// Puts a space on either side of each operator symbol, for display.
pub fn pad_operators(expression: &str) -> (r: String)
    ensures
        r@ == spaced(expression@),
{
    let s = chars_of(expression);
    let n = s.len();
    let mut out: Vec<char> = Vec::new();
    let mut i: usize = 0;
    while i < n
        invariant
            n == s@.len(),
            i <= n,
            spaced(s@) == out@ + spaced_from(s@, i as int),
        decreases n - i,
    {
        let c = s[i];
        let ghost prev = out@;
        if c == '^' && i + 1 < n && s[i + 1] == '^' {
            let piece = vec![' ', '^', '^', ' '];
            extend(&mut out, &piece);
            i = i + 2;
            assert(piece@ =~= seq![' ', '^', '^', ' ']);
            assert(prev + (piece@ + spaced_from(s@, i as int)) =~= out@ + spaced_from(
                s@,
                i as int,
            ));
        } else if c == '+' || c == '-' || c == '*' || c == '/' {
            let piece = vec![' ', c, ' '];
            extend(&mut out, &piece);
            i = i + 1;
            assert(piece@ =~= seq![' ', c, ' ']);
            assert(prev + (piece@ + spaced_from(s@, i as int)) =~= out@ + spaced_from(
                s@,
                i as int,
            ));
        } else {
            out.push(c);
            i = i + 1;
            assert(prev + (seq![c] + spaced_from(s@, i as int)) =~= out@ + spaced_from(
                s@,
                i as int,
            ));
        }
    }
    assert(out@ + Seq::<char>::empty() =~= out@);
    string_of(&out)
}

} // verus!
