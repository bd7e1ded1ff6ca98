//! Evaluation with a trace: the expression text rewritten one computed step at a time.
use vstd::prelude::*;
use crate::ast::{Node, Tree};
use crate::error::{Error, Fault};
use crate::parser::{get_precedence, precedence};
use crate::text::{
    alphabetic, chars_of, extend, find, find_first, is_alphabetic, replace_first, replace_first_in,
    string_of,
};

verus! {

/// A computed value, as the trace writes it.
pub enum Value {
    /// A value with no fractional part that fits in `i64`, written as an integer.
    Whole(i64),
    /// Any other value, with its default floating-point text (which, for a whole value,
    /// holds no decimal point either).
    Fraction(String),
}

/// The character of a decimal digit.
pub open spec fn digit_char(d: nat) -> char {
    if d == 0 {
        '0'
    } else if d == 1 {
        '1'
    } else if d == 2 {
        '2'
    } else if d == 3 {
        '3'
    } else if d == 4 {
        '4'
    } else if d == 5 {
        '5'
    } else if d == 6 {
        '6'
    } else if d == 7 {
        '7'
    } else if d == 8 {
        '8'
    } else {
        '9'
    }
}

/// The decimal digits of `n`, most significant first.
pub open spec fn digits(n: nat) -> Seq<char>
    decreases n,
{
    if n < 10 {
        seq![digit_char(n)]
    } else {
        digits(n / 10).push(digit_char(n % 10))
    }
}

/// The decimal text of an integer, with a leading `-` when it is negative.
pub open spec fn decimal(i: int) -> Seq<char> {
    if i < 0 {
        seq!['-'] + digits((-i) as nat)
    } else {
        digits(i as nat)
    }
}

/// How a value is written in the trace.
pub open spec fn text_of(v: Value) -> Seq<char> {
    match v {
        Value::Whole(i) => decimal(i as int),
        Value::Fraction(t) => t@,
    }
}

fn digit_of(d: u64) -> (c: char)
    requires
        d < 10,
    ensures
        c == digit_char(d as nat),
{
    if d == 0 {
        '0'
    } else if d == 1 {
        '1'
    } else if d == 2 {
        '2'
    } else if d == 3 {
        '3'
    } else if d == 4 {
        '4'
    } else if d == 5 {
        '5'
    } else if d == 6 {
        '6'
    } else if d == 7 {
        '7'
    } else if d == 8 {
        '8'
    } else {
        '9'
    }
}

fn digits_of(n: u64) -> (r: Vec<char>)
    ensures
        r@ == digits(n as nat),
    decreases n,
{
    if n < 10 {
        let r = vec![digit_of(n)];
        assert(r@ =~= digits(n as nat));
        r
    } else {
        let mut r = digits_of(n / 10);
        r.push(digit_of(n % 10));
        r
    }
}

/// Writes a value: a whole value as its integer text, any other as its own text.
pub fn render(v: &Value) -> (r: Vec<char>)
    ensures
        r@ == text_of(*v),
{
    match v {
        Value::Whole(i) => {
            if *i < 0 {
                let m = (-(*i as i128)) as u64;
                let mut r = vec!['-'];
                let d = digits_of(m);
                extend(&mut r, &d);
                r
            } else {
                digits_of(*i as u64)
            }
        },
        Value::Fraction(t) => chars_of(t.as_str()),
    }
}

/// The number of nodes of a tree.
pub open spec fn size(t: Tree) -> nat
    decreases t,
{
    match t {
        Tree::Number(_) => 1,
        Tree::Operation(_, l, r) => size(*l) + size(*r) + 1,
        Tree::Function(_, a) => size(*a) + 1,
    }
}

/// The functions that evaluation knows.
pub open spec fn known_function(name: Seq<char>) -> bool {
    name == seq!['s', 'i', 'n'] || name == seq!['c', 'o', 's'] || name == seq!['s', 'q', 'r', 't']
        || name == seq!['l', 'o', 'g']
}

fn same(a: &Vec<char>, b: &Vec<char>) -> (r: bool)
    ensures
        r == (a@ == b@),
{
    if a.len() != b.len() {
        return false;
    }
    let mut i: usize = 0;
    while i < a.len()
        invariant
            a@.len() == b@.len(),
            i <= a@.len(),
            forall|j: int| 0 <= j < i ==> a@[j] == b@[j],
        decreases a.len() - i,
    {
        if a[i] != b[i] {
            return false;
        }
        i = i + 1;
    }
    assert(a@ =~= b@);
    true
}

/// Whether `name` is one of `sin`, `cos`, `sqrt` and `log`.
pub fn is_known_function(name: &str) -> (r: bool)
    ensures
        r == known_function(name@),
{
    let n = chars_of(name);
    let sin = vec!['s', 'i', 'n'];
    let cos = vec!['c', 'o', 's'];
    let sqrt = vec!['s', 'q', 'r', 't'];
    let log = vec!['l', 'o', 'g'];
    assert(sin@ =~= seq!['s', 'i', 'n']);
    assert(cos@ =~= seq!['c', 'o', 's']);
    assert(sqrt@ =~= seq!['s', 'q', 'r', 't']);
    assert(log@ =~= seq!['l', 'o', 'g']);
    same(&n, &sin) || same(&n, &cos) || same(&n, &sqrt) || same(&n, &log)
}

/// `s` with every parenthesis left out.
pub open spec fn without_parens(s: Seq<char>) -> Seq<char>
    decreases s.len(),
{
    if s.len() == 0 {
        s
    } else if s.last() == '(' || s.last() == ')' {
        without_parens(s.drop_last())
    } else {
        without_parens(s.drop_last()).push(s.last())
    }
}

fn strip_parens(v: &Vec<char>) -> (r: Vec<char>)
    ensures
        r@ == without_parens(v@),
{
    let mut out: Vec<char> = Vec::new();
    let mut i: usize = 0;
    while i < v.len()
        invariant
            i <= v@.len(),
            out@ == without_parens(v@.subrange(0, i as int)),
        decreases v.len() - i,
    {
        assert(v@.subrange(0, i + 1).drop_last() =~= v@.subrange(0, i as int));
        if v[i] != '(' && v[i] != ')' {
            out.push(v[i]);
        }
        i = i + 1;
    }
    assert(v@.subrange(0, v@.len() as int) =~= v@);
    out
}

/// `(text)`.
pub open spec fn parenthesized(text: Seq<char>) -> Seq<char> {
    seq!['('] + text + seq![')']
}

/// The trace after an operation `left op right` has been computed as `value`. Its text
/// `(left op right)` is replaced by the value where it occurs first; the value keeps
/// parentheses there if a letter stands right before it, so that a function call stays
/// one. Where that text does not occur, the same text without parentheses is replaced.
pub open spec fn substitute_operation(
    buf: Seq<char>,
    left: Seq<char>,
    op: Seq<char>,
    right: Seq<char>,
    value: Seq<char>,
) -> Seq<char> {
    let sub = parenthesized(left + op + right);
    match find_first(buf, sub) {
        Some(p) => if p > 0 && alphabetic(buf[p - 1]) {
            replace_first(buf, sub, parenthesized(value))
        } else {
            replace_first(buf, sub, value)
        },
        None => replace_first(buf, without_parens(sub), value),
    }
}

/// The trace after a call `name(argument)` has been computed as `value`.
pub open spec fn substitute_call(
    buf: Seq<char>,
    name: Seq<char>,
    argument: Seq<char>,
    value: Seq<char>,
) -> Seq<char> {
    replace_first(buf, name + parenthesized(argument), value)
}

fn wrap(text: &Vec<char>) -> (r: Vec<char>)
    ensures
        r@ == parenthesized(text@),
{
    let mut r = vec!['('];
    extend(&mut r, text);
    r.push(')');
    assert(r@ =~= parenthesized(text@));
    r
}

/// Rewrites the trace after an operation has been computed.
pub fn substitute_operation_in(
    buf: &Vec<char>,
    left: &Vec<char>,
    op: &Vec<char>,
    right: &Vec<char>,
    value: &Vec<char>,
) -> (r: Vec<char>)
    ensures
        r@ == substitute_operation(buf@, left@, op@, right@, value@),
{
    let mut inner = left.clone();
    extend(&mut inner, op);
    extend(&mut inner, right);
    let sub = wrap(&inner);
    match find(buf, &sub) {
        Some(p) => {
            if p > 0 && is_alphabetic(buf[p - 1]) {
                replace_first_in(buf, &sub, &wrap(value))
            } else {
                replace_first_in(buf, &sub, value)
            }
        },
        None => replace_first_in(buf, &strip_parens(&sub), value),
    }
}

/// Rewrites the trace after a function call has been computed.
pub fn substitute_call_in(
    buf: &Vec<char>,
    name: &Vec<char>,
    argument: &Vec<char>,
    value: &Vec<char>,
) -> (r: Vec<char>)
    ensures
        r@ == substitute_call(buf@, name@, argument@, value@),
{
    let mut sub = name.clone();
    extend(&mut sub, &wrap(argument));
    replace_first_in(buf, &sub, value)
}

/// The trace text after evaluation so far, the lines printed, and the failure if any.
pub ghost struct Run {
    pub buf: Seq<char>,
    pub lines: Seq<Seq<char>>,
    pub fault: Option<Fault>,
}

/// The text of the value of the node at post-order position `k`.
pub open spec fn shown(values: Seq<Value>, k: int) -> Seq<char> {
    text_of(values[k])
}

/// The last of `lines`, or `d` where there is none.
pub open spec fn last_or(d: Seq<char>, lines: Seq<Seq<char>>) -> Seq<char> {
    if lines.len() > 0 {
        lines.last()
    } else {
        d
    }
}

/// Whether a step that rewrote the trace text from `found` to `nb` prints it: the rewrite
/// changed the text, the text differs from `start`, the text when that step's
/// sub-expression began, and it differs from `seen`, the line printed last.
pub open spec fn prints(nb: Seq<char>, found: Seq<char>, start: Seq<char>, seen: Seq<char>) -> bool {
    nb != found && nb != start && nb != seen
}

/// Evaluates a tree whose nodes' values stand in `values` in post-order from `base` on,
/// starting from trace text `buf`, where `last` is the line printed last (or the
/// expression, before any). Each operation and call rewrites the trace, and the new text
/// is printed where [`prints`] says so.
pub open spec fn eval(t: Tree, values: Seq<Value>, base: int, buf: Seq<char>, last: Seq<char>) -> Run
    decreases t,
{
    match t {
        Tree::Number(_) => Run { buf, lines: Seq::empty(), fault: None },
        Tree::Operation(op, l, r) => {
            let a = eval(*l, values, base, buf, last);
            if a.fault is Some {
                a
            } else {
                let b = eval(*r, values, base + size(*l), a.buf, last_or(last, a.lines));
                let lines = a.lines + b.lines;
                if b.fault is Some {
                    Run { buf: b.buf, lines, fault: b.fault }
                } else if precedence(op) is None {
                    Run { buf: b.buf, lines, fault: Some(Fault::UnknownOperator(op)) }
                } else {
                    let nb = substitute_operation(
                        b.buf,
                        shown(values, base + size(*l) - 1),
                        op,
                        shown(values, base + size(*l) + size(*r) - 1),
                        shown(values, base + size(t) - 1),
                    );
                    Run {
                        buf: nb,
                        lines: if prints(nb, b.buf, buf, last_or(last, lines)) {
                            lines.push(nb)
                        } else {
                            lines
                        },
                        fault: None,
                    }
                }
            }
        },
        Tree::Function(name, arg) => {
            let a = eval(*arg, values, base, buf, last);
            if a.fault is Some {
                a
            } else if !known_function(name) {
                Run { buf: a.buf, lines: a.lines, fault: Some(Fault::UnknownFunction(name)) }
            } else {
                let nb = substitute_call(
                    a.buf,
                    name,
                    shown(values, base + size(*arg) - 1),
                    shown(values, base + size(t) - 1),
                );
                Run {
                    buf: nb,
                    lines: if prints(nb, a.buf, buf, last_or(last, a.lines)) {
                        a.lines.push(nb)
                    } else {
                        a.lines
                    },
                    fault: None,
                }
            }
        },
    }
}

proof fn lemma_last_or_concat(d: Seq<char>, xs: Seq<Seq<char>>, ys: Seq<Seq<char>>)
    ensures
        last_or(d, xs + ys) == last_or(last_or(d, xs), ys),
{
    if ys.len() > 0 {
        assert((xs + ys).last() == ys.last());
    } else {
        assert(xs + ys =~= xs);
    }
}

/// The texts of a sequence of lines.
pub open spec fn texts(ls: Seq<Vec<char>>) -> Seq<Seq<char>> {
    ls.map_values(|l: Vec<char>| l@)
}

proof fn lemma_texts_push(ls: Seq<Vec<char>>, l: Vec<char>)
    ensures
        texts(ls.push(l)) == texts(ls).push(l@),
{
    assert(texts(ls.push(l)) =~= texts(ls).push(l@));
}

/// Whether `nb` is to be printed, given the text found before the rewrite, the text at
/// the start of the step, and the lines printed so far after `expr`.
fn should_print(
    nb: &Vec<char>,
    found: &Vec<char>,
    start: &Vec<char>,
    expr: &Vec<char>,
    lines: &Vec<Vec<char>>,
) -> (r: bool)
    ensures
        r == prints(nb@, found@, start@, last_or(expr@, texts(lines@))),
{
    let n = lines.len();
    let seen_differs = if n > 0 {
        assert(texts(lines@).last() == lines@[n - 1]@);
        !same(nb, &lines[n - 1])
    } else {
        !same(nb, expr)
    };
    !same(nb, found) && !same(nb, start) && seen_differs
}

fn eval_node(
    node: &Node,
    values: &Vec<Value>,
    base: usize,
    expr: &Vec<char>,
    buf: &mut Vec<char>,
    lines: &mut Vec<Vec<char>>,
) -> (r: Result<(), Error>)
    requires
        base + size(node@) <= values@.len(),
    ensures
        ({
            let run = eval(node@, values@, base as int, old(buf)@, last_or(expr@, texts(old(lines)@)));
            &&& final(buf)@ == run.buf
            &&& texts(final(lines)@) == texts(old(lines)@) + run.lines
            &&& match r {
                Ok(_) => run.fault is None,
                Err(e) => run.fault == Some(e@),
            }
        }),
    decreases node,
{
    let ghost start = buf@;
    let ghost lines0 = texts(lines@);
    let ghost last = last_or(expr@, lines0);
    match node {
        Node::Number(_) => {
            assert(texts(lines@) =~= texts(lines@) + Seq::<Seq<char>>::empty());
            Ok(())
        },
        Node::Operation { operator, left, right } => {
            let before = buf.clone();
            eval_node(left, values, base, expr, buf, lines)?;
            let ghost a = eval((**left)@, values@, base as int, start, last);
            proof {
                lemma_last_or_concat(expr@, lines0, a.lines);
            }
            let lsize = size_of(left, values.len());
            eval_node(right, values, base + lsize, expr, buf, lines)?;
            let ghost b = eval((**right)@, values@, base + lsize, a.buf, last_or(last, a.lines));
            proof {
                lemma_last_or_concat(expr@, lines0 + a.lines, b.lines);
                lemma_last_or_concat(last, a.lines, b.lines);
                assert(lines0 + a.lines + b.lines =~= lines0 + (a.lines + b.lines));
            }
            if get_precedence(operator.as_str()).is_err() {
                return Err(Error::UnknownOperator(string_of(&chars_of(operator.as_str()))));
            }
            let rsize = size_of(right, values.len());
            let lv = render(&values[base + lsize - 1]);
            let rv = render(&values[base + lsize + rsize - 1]);
            let v = render(&values[base + lsize + rsize]);
            let nb = substitute_operation_in(buf, &lv, &chars_of(operator.as_str()), &rv, &v);
            if should_print(&nb, buf, &before, expr, lines) {
                let line = nb.clone();
                proof {
                    lemma_texts_push(lines@, line);
                }
                lines.push(line);
            }
            *buf = nb;
            assert(texts(lines@) =~= lines0 + eval(node@, values@, base as int, start, last).lines);
            Ok(())
        },
        Node::Function { name, argument } => {
            let before = buf.clone();
            eval_node(argument, values, base, expr, buf, lines)?;
            let ghost a = eval((**argument)@, values@, base as int, start, last);
            proof {
                lemma_last_or_concat(expr@, lines0, a.lines);
            }
            if !is_known_function(name.as_str()) {
                return Err(Error::UnknownFunction(string_of(&chars_of(name.as_str()))));
            }
            let asize = size_of(argument, values.len());
            let av = render(&values[base + asize - 1]);
            let v = render(&values[base + asize]);
            let nb = substitute_call_in(buf, &chars_of(name.as_str()), &av, &v);
            if should_print(&nb, buf, &before, expr, lines) {
                let line = nb.clone();
                proof {
                    lemma_texts_push(lines@, line);
                }
                lines.push(line);
            }
            *buf = nb;
            assert(texts(lines@) =~= lines0 + eval(node@, values@, base as int, start, last).lines);
            Ok(())
        },
    }
}

/// The number of nodes of a tree, known to be at most `bound`.
fn size_of(node: &Node, bound: usize) -> (r: usize)
    requires
        size(node@) <= bound,
    ensures
        r == size(node@),
    decreases node,
{
    match node {
        Node::Number(_) => 1,
        Node::Operation { left, right, .. } => size_of(left, bound) + size_of(right, bound) + 1,
        Node::Function { argument, .. } => size_of(argument, bound) + 1,
    }
}

/// One node of a tree in post-order, with its operands as positions of earlier steps.
pub enum Step {
    Literal(String),
    Apply { operator: String, left: usize, right: usize },
    Call { name: String, argument: usize },
}

/// A [`Step`] with its texts as character sequences.
pub ghost enum Instr {
    Literal(Seq<char>),
    Apply(Seq<char>, int, int),
    Call(Seq<char>, int),
}

impl View for Step {
    type V = Instr;

    open spec fn view(&self) -> Instr {
        match self {
            Step::Literal(t) => Instr::Literal(t@),
            Step::Apply { operator, left, right } => Instr::Apply(
                operator@,
                *left as int,
                *right as int,
            ),
            Step::Call { name, argument } => Instr::Call(name@, *argument as int),
        }
    }
}

pub open spec fn instrs(ss: Seq<Step>) -> Seq<Instr> {
    ss.map_values(|s: Step| s@)
}

/// The nodes of `t` in post-order, numbered from `base` on.
pub open spec fn plan(t: Tree, base: int) -> Seq<Instr>
    decreases t,
{
    match t {
        Tree::Number(x) => seq![Instr::Literal(x)],
        Tree::Operation(op, l, r) => plan(*l, base) + plan(*r, base + size(*l)) + seq![
            Instr::Apply(op, base + size(*l) - 1, base + size(*l) + size(*r) - 1),
        ],
        Tree::Function(name, a) => plan(*a, base) + seq![Instr::Call(name, base + size(*a) - 1)],
    }
}

pub proof fn lemma_plan_len(t: Tree, base: int)
    ensures
        plan(t, base).len() == size(t),
        size(t) >= 1,
    decreases t,
{
    match t {
        Tree::Number(_) => {},
        Tree::Operation(_, l, r) => {
            lemma_plan_len(*l, base);
            lemma_plan_len(*r, base + size(*l));
        },
        Tree::Function(_, a) => {
            lemma_plan_len(*a, base);
        },
    }
}

proof fn lemma_instrs_push(ss: Seq<Step>, s: Step)
    ensures
        instrs(ss.push(s)) == instrs(ss).push(s@),
{
    assert(instrs(ss.push(s)) =~= instrs(ss).push(s@));
}

fn plan_into(node: &Node, out: &mut Vec<Step>)
    ensures
        instrs(final(out)@) == instrs(old(out)@) + plan(node@, old(out)@.len() as int),
    decreases node,
{
    let ghost start = instrs(out@);
    let ghost base = out@.len() as int;
    proof {
        lemma_plan_len(node@, base);
    }
    match node {
        Node::Number(t) => {
            let s = Step::Literal(t.clone());
            proof {
                lemma_instrs_push(out@, s);
            }
            out.push(s);
        },
        Node::Operation { operator, left, right } => {
            plan_into(left, out);
            proof {
                lemma_plan_len((**left)@, base);
                assert(instrs(out@).len() == out@.len());
            }
            let li = out.len() - 1;
            plan_into(right, out);
            proof {
                lemma_plan_len((**right)@, base + size((**left)@));
                assert(instrs(out@).len() == out@.len());
            }
            let ri = out.len() - 1;
            let s = Step::Apply { operator: operator.clone(), left: li, right: ri };
            proof {
                lemma_instrs_push(out@, s);
            }
            out.push(s);
        },
        Node::Function { name, argument } => {
            plan_into(argument, out);
            proof {
                lemma_plan_len((**argument)@, base);
                assert(instrs(out@).len() == out@.len());
            }
            let ai = out.len() - 1;
            let s = Step::Call { name: name.clone(), argument: ai };
            proof {
                lemma_instrs_push(out@, s);
            }
            out.push(s);
        },
    }
    assert(instrs(out@) =~= start + plan(node@, base));
}

/// The nodes of a tree in post-order: each step's operands are earlier steps, and the
/// last step is the root. A value for each step, in this order, is what [`evaluate_ast`]
/// takes.
pub fn post_order(ast: &Node) -> (r: Vec<Step>)
    ensures
        instrs(r@) == plan(ast@, 0),
        r@.len() == size(ast@),
{
    let mut r: Vec<Step> = Vec::new();
    plan_into(ast, &mut r);
    proof {
        lemma_plan_len(ast@, 0);
        assert(instrs(r@) =~= plan(ast@, 0));
        assert(instrs(r@).len() == r@.len());
    }
    r
}

/// The lines that evaluation printed, and the failure that stopped it, if one did.
pub struct Trace {
    pub lines: Vec<String>,
    pub failure: Option<Error>,
}

pub open spec fn strings(ls: Seq<String>) -> Seq<Seq<char>> {
    ls.map_values(|l: String| l@)
}

/// Evaluates a tree for its trace. `values` holds the value of each node in post-order
/// (see [`post_order`]); `expr` is the expression as read, without spaces. Each
/// operation and call rewrites the expression text, and the new text is a line of the
/// trace where the rewrite changed it, it differs from the text that the step's
/// sub-expression began with, and it differs from the line before. No line repeats the
/// one before it, and the first differs from `expr`. An unknown function or operator
/// stops evaluation; the lines printed up to it stay.
pub fn evaluate_ast(ast: &Node, expr: &str, values: &Vec<Value>) -> (r: Trace)
    requires
        values@.len() == size(ast@),
    ensures
        strings(r.lines@) == eval(ast@, values@, 0, expr@, expr@).lines,
        r.failure is None <==> eval(ast@, values@, 0, expr@, expr@).fault is None,
        r.failure matches Some(e) ==> eval(ast@, values@, 0, expr@, expr@).fault == Some(e@),
        no_repeats(expr@, strings(r.lines@)),
{
    let text = chars_of(expr);
    let mut buf = chars_of(expr);
    let mut lines: Vec<Vec<char>> = Vec::new();
    assert(texts(lines@) =~= Seq::<Seq<char>>::empty());
    let outcome = eval_node(ast, values, 0, &text, &mut buf, &mut lines);
    proof {
        lemma_no_repeated_lines(ast@, values@, 0, expr@, expr@);
        assert(texts(lines@) =~= eval(ast@, values@, 0, expr@, expr@).lines);
    }
    let ghost all = texts(lines@);
    let mut out: Vec<String> = Vec::new();
    let mut i: usize = 0;
    while i < lines.len()
        invariant
            i <= lines@.len(),
            all == texts(lines@),
            all.len() == lines@.len(),
            strings(out@) == all.subrange(0, i as int),
        decreases lines.len() - i,
    {
        assert(all[i as int] == lines@[i as int]@);
        let ghost prev = out@;
        out.push(string_of(&lines[i]));
        assert(strings(out@) =~= strings(prev).push(all[i as int]));
        i = i + 1;
        assert(strings(out@) =~= all.subrange(0, i as int));
    }
    assert(all.subrange(0, all.len() as int) =~= all);
    let failure = match outcome {
        Ok(_) => None,
        Err(e) => Some(e),
    };
    Trace { lines: out, failure }
}

/// Whether a tree calls a function that evaluation does not know.
pub open spec fn has_unknown_function(t: Tree) -> bool
    decreases t,
{
    match t {
        Tree::Number(_) => false,
        Tree::Operation(_, l, r) => has_unknown_function(*l) || has_unknown_function(*r),
        Tree::Function(name, a) => !known_function(name) || has_unknown_function(*a),
    }
}

/// A tree that calls an unknown function never evaluates: evaluation ends in a failure,
/// whatever the values and the trace text.
pub proof fn lemma_unknown_function_fails(
    t: Tree,
    values: Seq<Value>,
    base: int,
    buf: Seq<char>,
    last: Seq<char>,
)
    requires
        has_unknown_function(t),
    ensures
        eval(t, values, base, buf, last).fault is Some,
    decreases t,
{
    match t {
        Tree::Number(_) => {},
        Tree::Operation(_, l, r) => {
            let a = eval(*l, values, base, buf, last);
            if has_unknown_function(*l) {
                lemma_unknown_function_fails(*l, values, base, buf, last);
            } else if a.fault is None {
                lemma_unknown_function_fails(
                    *r,
                    values,
                    base + size(*l),
                    a.buf,
                    last_or(last, a.lines),
                );
            }
        },
        Tree::Function(name, a) => {
            if has_unknown_function(*a) {
                lemma_unknown_function_fails(*a, values, base, buf, last);
            }
        },
    }
}

/// No line equals the one before it, and the first differs from `start`.
pub open spec fn no_repeats(start: Seq<char>, lines: Seq<Seq<char>>) -> bool {
    &&& lines.len() > 0 ==> lines[0] != start
    &&& forall|i: int| 0 <= i < lines.len() - 1 ==> #[trigger] lines[i] != lines[i + 1]
}

proof fn lemma_no_repeats_concat(start: Seq<char>, xs: Seq<Seq<char>>, ys: Seq<Seq<char>>)
    requires
        no_repeats(start, xs),
        no_repeats(last_or(start, xs), ys),
    ensures
        no_repeats(start, xs + ys),
{
    let zs = xs + ys;
    assert forall|i: int| 0 <= i < zs.len() - 1 implies #[trigger] zs[i] != zs[i + 1] by {
        if i + 1 < xs.len() {
            assert(zs[i] == xs[i] && zs[i + 1] == xs[i + 1]);
        } else if i + 1 == xs.len() {
            assert(zs[i + 1] == ys[0]);
        } else {
            assert(zs[i] == ys[i - xs.len()] && zs[i + 1] == ys[i - xs.len() + 1]);
        }
    }
    if xs.len() > 0 {
        assert(zs[0] == xs[0]);
    } else if ys.len() > 0 {
        assert(zs[0] == ys[0]);
    }
}

proof fn lemma_no_repeats_push(start: Seq<char>, xs: Seq<Seq<char>>, x: Seq<char>)
    requires
        no_repeats(start, xs),
        x != last_or(start, xs),
    ensures
        no_repeats(start, xs.push(x)),
{
    lemma_no_repeats_concat(start, xs, seq![x]);
    assert(xs + seq![x] =~= xs.push(x));
}

/// No line of a trace repeats the line printed before it, and the first line differs
/// from `last`, the line shown before evaluation began.
pub proof fn lemma_no_repeated_lines(
    t: Tree,
    values: Seq<Value>,
    base: int,
    buf: Seq<char>,
    last: Seq<char>,
)
    ensures
        no_repeats(last, eval(t, values, base, buf, last).lines),
    decreases t,
{
    match t {
        Tree::Number(_) => {},
        Tree::Operation(op, l, r) => {
            let a = eval(*l, values, base, buf, last);
            lemma_no_repeated_lines(*l, values, base, buf, last);
            if a.fault is None {
                let b = eval(*r, values, base + size(*l), a.buf, last_or(last, a.lines));
                lemma_no_repeated_lines(*r, values, base + size(*l), a.buf, last_or(last, a.lines));
                lemma_no_repeats_concat(last, a.lines, b.lines);
                let ls = a.lines + b.lines;
                if b.fault is None && precedence(op) is Some {
                    let nb = eval(t, values, base, buf, last).buf;
                    if prints(nb, b.buf, buf, last_or(last, ls)) {
                        lemma_no_repeats_push(last, ls, nb);
                    }
                }
            }
        },
        Tree::Function(name, arg) => {
            let a = eval(*arg, values, base, buf, last);
            lemma_no_repeated_lines(*arg, values, base, buf, last);
            if a.fault is None && known_function(name) {
                let nb = eval(t, values, base, buf, last).buf;
                if prints(nb, a.buf, buf, last_or(last, a.lines)) {
                    lemma_no_repeats_push(last, a.lines, nb);
                }
            }
        },
    }
}

proof fn lemma_digits_have_no_point(n: nat)
    ensures
        forall|k: int| 0 <= k < digits(n).len() ==> #[trigger] digits(n)[k] != '.',
        digits(n).len() >= 1,
    decreases n,
{
    if n >= 10 {
        lemma_digits_have_no_point(n / 10);
    }
}

/// A whole value is written as its integer text, which holds no decimal point, wherever
/// the trace writes it.
pub proof fn lemma_whole_has_no_point(i: i64)
    ensures
        text_of(Value::Whole(i)) == decimal(i as int),
        forall|k: int|
            0 <= k < text_of(Value::Whole(i)).len() ==> #[trigger] text_of(Value::Whole(i))[k]
                != '.',
{
    let n = if i < 0 {
        (-i) as nat
    } else {
        i as nat
    };
    lemma_digits_have_no_point(n);
    if i < 0 {
        assert forall|k: int| 0 <= k < text_of(Value::Whole(i)).len() implies #[trigger] text_of(
            Value::Whole(i),
        )[k] != '.' by {
            if k > 0 {
                assert(text_of(Value::Whole(i))[k] == digits(n)[k - 1]);
            }
        }
    }
}

} // verus!
