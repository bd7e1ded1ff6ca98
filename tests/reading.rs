use stepwise_calc::ast::{create_ast, Node};
use stepwise_calc::error::Error;
use stepwise_calc::expression::parse_expression;
use stepwise_calc::lexer::{get_tokens, Token};
use stepwise_calc::parser::{get_precedence, is_left_associative, shunting_yard};
use stepwise_calc::text::{pad_operators, strip_spaces};
use stepwise_calc::trace::{is_known_function, post_order, Step};

fn tokens(s: &str) -> Vec<Token> {
    get_tokens(s).unwrap_or_else(|_| panic!("does not lex"))
}

fn describe(ts: &[Token]) -> Vec<String> {
    ts.iter()
        .map(|t| match t {
            Token::Number(x) => format!("n{}", x),
            Token::Operator(x) => format!("o{}", x),
            Token::Function(x) => format!("f{}", x),
            Token::LeftParen => "(".to_string(),
            Token::RightParen => ")".to_string(),
        })
        .collect()
}

#[test]
fn lexer_splits_tokens() {
    let ts = tokens("12.5+sqrt(3)^^2");
    assert_eq!(describe(&ts), vec!["n12.5", "o+", "fsqrt", "(", "n3", ")", "o^^", "n2"]);
}

#[test]
fn lexer_passes_over_unknown_characters() {
    assert_eq!(describe(&tokens("1,2#")), vec!["n1", "n2"]);
    assert_eq!(describe(&tokens("1 + 2")), vec!["n1", "o+", "n2"]);
}

#[test]
fn lexer_keeps_a_lone_caret() {
    assert_eq!(describe(&tokens("2^3")), vec!["n2", "o^", "n3"]);
    assert_eq!(describe(&tokens("2^^^3")), vec!["n2", "o^^", "o^", "n3"]);
}

#[test]
fn lexer_rejects_malformed_numbers() {
    assert!(matches!(get_tokens("1.2.3"), Err(Error::InvalidNumber(t)) if t == "1.2.3"));
    assert!(matches!(get_tokens("1+."), Err(Error::InvalidNumber(t)) if t == "."));
    assert_eq!(describe(&tokens(".5+1.")), vec!["n.5", "o+", "n1."]);
}

#[test]
fn precedence_table() {
    assert!(matches!(get_precedence("+"), Ok(1)));
    assert!(matches!(get_precedence("-"), Ok(1)));
    assert!(matches!(get_precedence("*"), Ok(2)));
    assert!(matches!(get_precedence("/"), Ok(2)));
    assert!(matches!(get_precedence("^^"), Ok(3)));
    assert!(matches!(get_precedence("^"), Err(Error::UnknownOperator(t)) if t == "^"));
    assert!(matches!(is_left_associative("-"), Ok(true)));
    assert!(matches!(is_left_associative("/"), Ok(true)));
    assert!(matches!(is_left_associative("^^"), Ok(false)));
    assert!(matches!(is_left_associative("%"), Err(Error::UnknownOperator(_))));
}

#[test]
fn postfix_order() {
    let out = shunting_yard(tokens("3+4*2")).unwrap_or_else(|_| panic!("fails"));
    assert_eq!(describe(&out), vec!["n3", "n4", "n2", "o*", "o+"]);
    let out = shunting_yard(tokens("8-2-1")).unwrap_or_else(|_| panic!("fails"));
    assert_eq!(describe(&out), vec!["n8", "n2", "o-", "n1", "o-"]);
    let out = shunting_yard(tokens("2^^3^^2")).unwrap_or_else(|_| panic!("fails"));
    assert_eq!(describe(&out), vec!["n2", "n3", "n2", "o^^", "o^^"]);
    let out = shunting_yard(tokens("cos(1+2)*3")).unwrap_or_else(|_| panic!("fails"));
    assert_eq!(describe(&out), vec!["n1", "n2", "o+", "fcos", "n3", "o*"]);
}

#[test]
fn postfix_rejects_unknown_operators() {
    assert!(matches!(shunting_yard(tokens("1^2")), Err(Error::UnknownOperator(t)) if t == "^"));
}

#[test]
fn postfix_rejects_unmatched_parentheses() {
    assert!(matches!(shunting_yard(tokens("(1+2")), Err(Error::MismatchedParentheses)));
    assert!(matches!(shunting_yard(tokens("1+2)")), Err(Error::MismatchedParentheses)));
    assert!(matches!(shunting_yard(tokens("((1)")), Err(Error::MismatchedParentheses)));
}

#[test]
fn tree_building_failures() {
    let plus = || Token::Operator("+".to_string());
    let num = |s: &str| Token::Number(s.to_string());
    assert!(matches!(create_ast(vec![num("1"), plus()]), Err(Error::MissingOperand)));
    assert!(matches!(create_ast(vec![Token::Function("sin".to_string())]), Err(Error::MissingOperand)));
    assert!(matches!(create_ast(vec![num("1"), num("2")]), Err(Error::InvalidTree)));
    assert!(matches!(create_ast(vec![]), Err(Error::InvalidTree)));
    assert!(matches!(create_ast(vec![Token::LeftParen]), Err(Error::UnexpectedParenthesis)));
    assert!(matches!(parse_expression("1+"), Err(Error::MissingOperand)));
    assert!(matches!(parse_expression("1 2"), Err(Error::InvalidTree)));
}

#[test]
fn tree_keeps_operand_order() {
    let tree = parse_expression("7-2").unwrap_or_else(|_| panic!("fails"));
    match tree {
        Node::Operation { operator, left, right } => {
            assert_eq!(operator, "-");
            assert!(matches!(*left, Node::Number(ref t) if t == "7"));
            assert!(matches!(*right, Node::Number(ref t) if t == "2"));
        }
        _ => panic!("root is no operation"),
    }
}

#[test]
fn post_order_numbers_operands() {
    let tree = parse_expression("sin(1)+2").unwrap_or_else(|_| panic!("fails"));
    let steps = post_order(&tree);
    assert_eq!(steps.len(), 4);
    assert!(matches!(&steps[0], Step::Literal(t) if t == "1"));
    assert!(matches!(&steps[1], Step::Call { name, argument: 0 } if name == "sin"));
    assert!(matches!(&steps[2], Step::Literal(t) if t == "2"));
    assert!(matches!(&steps[3], Step::Apply { operator, left: 1, right: 2 } if operator == "+"));
}

#[test]
fn known_functions() {
    assert!(is_known_function("sin"));
    assert!(is_known_function("cos"));
    assert!(is_known_function("sqrt"));
    assert!(is_known_function("log"));
    assert!(!is_known_function("foo"));
    assert!(!is_known_function("si"));
}

#[test]
fn display_pads_operators() {
    assert_eq!(pad_operators("1+2*(3-4)/5^^6"), "1 + 2 * (3 - 4) / 5 ^^ 6");
    assert_eq!(pad_operators("2^^^3"), "2 ^^ ^3");
    assert_eq!(pad_operators(""), "");
}

#[test]
fn spaces_are_stripped() {
    assert_eq!(strip_spaces(" 1 +  2 "), "1+2");
    assert_eq!(strip_spaces("   "), "");
}

#[test]
fn letters_outside_ascii_form_names() {
    assert_eq!(describe(&tokens("é(1)")), vec!["fé", "(", "n1", ")"]);
}
