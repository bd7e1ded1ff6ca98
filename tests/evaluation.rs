use stepwise_calc::ast::Node;
use stepwise_calc::error::Error;
use stepwise_calc::expression::parse_expression;
use stepwise_calc::text::strip_spaces;
use stepwise_calc::trace::{evaluate_ast, post_order, render, Step, Value};

fn value_of(v: f64) -> Value {
    if v.fract() == 0.0 && v >= -9223372036854775808.0 && v < 9223372036854775808.0 {
        Value::Whole(v as i64)
    } else {
        Value::Fraction(format!("{}", v))
    }
}

fn values_for(steps: &[Step]) -> Vec<f64> {
    let mut vals: Vec<f64> = Vec::new();
    for step in steps {
        let v = match step {
            Step::Literal(t) => t.parse::<f64>().unwrap(),
            Step::Apply { operator, left, right } => {
                let (a, b) = (vals[*left], vals[*right]);
                match operator.as_str() {
                    "+" => a + b,
                    "-" => a - b,
                    "*" => a * b,
                    "/" => a / b,
                    "^^" => a.powf(b),
                    _ => f64::NAN,
                }
            }
            Step::Call { name, argument } => {
                let a = vals[*argument];
                match name.as_str() {
                    "sin" => a.sin(),
                    "cos" => a.cos(),
                    "sqrt" => a.sqrt(),
                    "log" => a.ln(),
                    _ => f64::NAN,
                }
            }
        };
        vals.push(v);
    }
    vals
}

fn run(input: &str) -> (Vec<String>, Option<Error>, f64) {
    let expr = strip_spaces(input);
    let tree = parse_expression(&expr).unwrap_or_else(|_| panic!("does not parse"));
    let steps = post_order(&tree);
    let floats = values_for(&steps);
    let result = *floats.last().unwrap();
    let values: Vec<Value> = floats.into_iter().map(value_of).collect();
    let trace = evaluate_ast(&tree, &expr, &values);
    (trace.lines, trace.failure, result)
}

fn parse_error(input: &str) -> Error {
    match parse_expression(input) {
        Ok(_) => panic!("parsed"),
        Err(e) => e,
    }
}

fn is_number(n: &Node, text: &str) -> bool {
    matches!(n, Node::Number(t) if t == text)
}

#[test]
fn arithmetic_follows_precedence() {
    let (lines, failure, value) = run("3+4*2");
    assert!(failure.is_none());
    assert_eq!(value, 11.0);
    assert_eq!(lines, vec!["3+8".to_string(), "11".to_string()]);
}

#[test]
fn parentheses_group_first() {
    let (lines, failure, value) = run("(1+2)*3");
    assert!(failure.is_none());
    assert_eq!(value, 9.0);
    assert_eq!(lines, vec!["3*3".to_string(), "9".to_string()]);
}

#[test]
fn power_groups_from_the_right() {
    let tree = parse_expression("2^^3^^2").unwrap_or_else(|_| panic!("does not parse"));
    match &tree {
        Node::Operation { operator, left, right } => {
            assert_eq!(operator, "^^");
            assert!(is_number(left, "2"));
            match right.as_ref() {
                Node::Operation { operator, left, right } => {
                    assert_eq!(operator, "^^");
                    assert!(is_number(left, "3"));
                    assert!(is_number(right, "2"));
                }
                _ => panic!("right operand is no operation"),
            }
        }
        _ => panic!("root is no operation"),
    }
    let (lines, _, value) = run("2^^3^^2");
    assert_eq!(value, 512.0);
    assert_eq!(lines.last().unwrap(), "512");
}

#[test]
fn multiplication_binds_tighter_than_addition() {
    let tree = parse_expression("2+3*4").unwrap_or_else(|_| panic!("does not parse"));
    match &tree {
        Node::Operation { operator, left, right } => {
            assert_eq!(operator, "+");
            assert!(is_number(left, "2"));
            assert!(matches!(right.as_ref(), Node::Operation { operator, .. } if operator == "*"));
        }
        _ => panic!("root is no operation"),
    }
    let (lines, _, value) = run("2+3*4");
    assert_eq!(value, 14.0);
    assert_eq!(lines, vec!["2+12".to_string(), "14".to_string()]);
}

#[test]
fn unmatched_parentheses_fail() {
    assert!(matches!(parse_error("(1+2"), Error::MismatchedParentheses));
    assert!(matches!(parse_error("1+2)"), Error::MismatchedParentheses));
    assert!(matches!(parse_error(")("), Error::MismatchedParentheses));
}

#[test]
fn functions_apply_to_their_argument() {
    let (lines, failure, value) = run("sqrt(16)");
    assert!(failure.is_none());
    assert_eq!(value, 4.0);
    assert_eq!(lines, vec!["4".to_string()]);
    let (lines, _, value) = run("sin(0)");
    assert_eq!(value, 0.0);
    assert_eq!(lines, vec!["0".to_string()]);
}

#[test]
fn function_argument_keeps_its_parentheses() {
    let (lines, _, _) = run("sqrt(9+7)");
    assert_eq!(lines, vec!["sqrt(16)".to_string(), "4".to_string()]);
}

#[test]
fn whole_values_have_no_point() {
    assert_eq!(render(&Value::Whole(4)), vec!['4']);
    assert_eq!(render(&Value::Whole(-120)), vec!['-', '1', '2', '0']);
    assert_eq!(render(&Value::Whole(i64::MIN)).iter().collect::<String>(), "-9223372036854775808");
    assert_eq!(render(&Value::Fraction("2.5".to_string())), vec!['2', '.', '5']);
    let (lines, _, value) = run("0.5*8");
    assert_eq!(value, 4.0);
    assert_eq!(lines, vec!["4".to_string()]);
}

#[test]
fn fractions_keep_their_text() {
    let (lines, _, value) = run("1/4+1");
    assert_eq!(value, 1.25);
    assert_eq!(lines, vec!["0.25+1".to_string(), "1.25".to_string()]);
}

#[test]
fn consecutive_lines_differ() {
    let (lines, _, value) = run("1+1+1+1");
    assert_eq!(value, 4.0);
    assert_eq!(lines, vec!["2+1+1".to_string(), "3+1".to_string(), "4".to_string()]);
    for pair in lines.windows(2) {
        assert_ne!(pair[0], pair[1]);
    }
    assert_ne!(lines[0], "1+1+1+1");
}

#[test]
fn unknown_function_fails() {
    let (lines, failure, _) = run("foo(1)");
    assert!(lines.is_empty());
    match failure {
        Some(Error::UnknownFunction(name)) => assert_eq!(name, "foo"),
        _ => panic!("no unknown-function error"),
    }
}

#[test]
fn lines_before_a_failure_stay() {
    let (lines, failure, _) = run("foo(1+2)");
    assert_eq!(lines, vec!["foo(3)".to_string()]);
    assert!(matches!(failure, Some(Error::UnknownFunction(_))));
}

#[test]
fn division_by_zero_is_no_error() {
    let (lines, failure, value) = run("1/0");
    assert!(failure.is_none());
    assert!(value.is_infinite());
    assert_eq!(lines, vec!["inf".to_string()]);
}

#[test]
fn single_number_prints_nothing() {
    let (lines, failure, value) = run("42");
    assert!(failure.is_none());
    assert_eq!(value, 42.0);
    assert!(lines.is_empty());
}

#[test]
fn spaces_are_ignored() {
    let (lines, _, value) = run(" 2 * ( 3 + 4 ) ");
    assert_eq!(value, 14.0);
    assert_eq!(lines, vec!["2*7".to_string(), "14".to_string()]);
}

#[test]
fn unmatched_operation_text_prints_no_repeat() {
    let (lines, failure, value) = run("(1+1)*(2)");
    assert!(failure.is_none());
    assert_eq!(value, 4.0);
    assert_eq!(lines, vec!["2*(2)".to_string()]);
}

#[test]
fn repeated_calls_print_each_step_once() {
    let (lines, failure, value) = run("sqrt(2+2)+sqrt(2+2)");
    assert!(failure.is_none());
    assert_eq!(value, 4.0);
    assert_eq!(
        lines,
        vec![
            "sqrt(4)+sqrt(2+2)".to_string(),
            "2+sqrt(2+2)".to_string(),
            "2+sqrt(4)".to_string(),
            "2+2".to_string(),
            "4".to_string(),
        ]
    );
    for pair in lines.windows(2) {
        assert_ne!(pair[0], pair[1]);
    }
}

#[test]
fn large_whole_values_keep_all_digits() {
    let (lines, failure, value) = run("10^^20");
    assert!(failure.is_none());
    assert_eq!(value, 1e20);
    assert_eq!(lines, vec!["100000000000000000000".to_string()]);
}

#[test]
fn unknown_operator_in_a_tree_fails() {
    let tree = Node::Operation {
        operator: "%".to_string(),
        left: Box::new(Node::Number("7".to_string())),
        right: Box::new(Node::Number("2".to_string())),
    };
    let values = vec![Value::Whole(7), Value::Whole(2), Value::Whole(1)];
    let trace = evaluate_ast(&tree, "7%2", &values);
    assert!(trace.lines.is_empty());
    assert!(matches!(trace.failure, Some(Error::UnknownOperator(op)) if op == "%"));
}
