use shunting_yard::eval::{evaluate, EvalError, Expr};
use shunting_yard::lex::{Lexer, LexerError, Numeral, Operator, Precedence, Token};
use shunting_yard::render::render;

fn number(text: &str) -> Token {
    Token::Number(Numeral { text: text.chars().collect() })
}

fn op(o: Operator) -> Token {
    Token::Operator(o)
}

fn lex(line: &str) -> (Vec<Token>, Vec<LexerError>) {
    Lexer::new(line).lex()
}

fn numeric(n: &Numeral) -> f64 {
    n.text.iter().collect::<String>().parse::<f64>().unwrap()
}

fn fold(e: &Expr, tokens: &[Token]) -> f64 {
    match e {
        Expr::Leaf(i) => match &tokens[*i] {
            Token::Number(n) => numeric(n),
            Token::Operator(_) => panic!("a leaf names an operator token"),
        },
        Expr::Binary(o, l, r) => {
            let (l, r) = (fold(l, tokens), fold(r, tokens));
            match o {
                Operator::Add => l + r,
                Operator::Sub => l - r,
                Operator::Mul => l * r,
                Operator::Div => l / r,
                _ => panic!("a parenthesis applied as an operator"),
            }
        }
    }
}

fn value_of(line: &str) -> f64 {
    let (tokens, errors) = lex(line);
    assert!(errors.is_empty());
    let tree = evaluate(&tokens).unwrap().unwrap();
    fold(&tree, &tokens)
}

fn leaf(i: usize) -> Box<Expr> {
    Box::new(Expr::Leaf(i))
}

#[test]
fn lexes_decimal_and_operator() {
    let (tokens, errors) = lex("12.5+3");
    assert_eq!(tokens, vec![number("12.5"), op(Operator::Add), number("3")]);
    assert!(errors.is_empty());
    match (&tokens[0], &tokens[2]) {
        (Token::Number(a), Token::Number(b)) => {
            assert_eq!(numeric(a), 12.5);
            assert_eq!(numeric(b), 3.0);
        }
        _ => panic!("expected numbers"),
    }
}

#[test]
fn unknown_character_is_collected() {
    let (tokens, errors) = lex("3~4");
    assert_eq!(tokens, vec![number("3"), number("4")]);
    assert_eq!(errors, vec![LexerError::UnknownCharacter('~')]);
}

#[test]
fn errors_accumulate_in_order() {
    let (tokens, errors) = lex("a1#b");
    assert_eq!(tokens, vec![number("1")]);
    assert_eq!(
        errors,
        vec![
            LexerError::UnknownCharacter('a'),
            LexerError::UnknownCharacter('#'),
            LexerError::UnknownCharacter('b'),
        ]
    );
}

#[test]
fn every_operator_and_parenthesis() {
    let (tokens, errors) = lex("+-*/()");
    assert!(errors.is_empty());
    assert_eq!(
        tokens,
        vec![
            op(Operator::Add),
            op(Operator::Sub),
            op(Operator::Mul),
            op(Operator::Div),
            op(Operator::LeftParenthesis),
            op(Operator::RightParenthesis),
        ]
    );
}

#[test]
fn numeral_with_trailing_dot() {
    let (tokens, errors) = lex("12.");
    assert_eq!(tokens, vec![number("12.")]);
    assert!(errors.is_empty());
    match &tokens[0] {
        Token::Number(n) => assert_eq!(numeric(n), 12.0),
        _ => panic!("expected a number"),
    }
}

#[test]
fn second_dot_is_an_error() {
    let (tokens, errors) = lex("1.2.3");
    assert_eq!(tokens, vec![number("1.2"), number("3")]);
    assert_eq!(errors, vec![LexerError::UnknownCharacter('.')]);
}

#[test]
fn whitespace_separates_numbers() {
    let (tokens, errors) = lex(" 1 \t2\r\n");
    assert_eq!(tokens, vec![number("1"), number("2")]);
    assert!(errors.is_empty());
}

#[test]
fn multiply_before_add() {
    let (tokens, _) = lex("2+3*4");
    let tree = evaluate(&tokens).unwrap().unwrap();
    assert_eq!(
        tree,
        Expr::Binary(
            Operator::Add,
            leaf(0),
            Box::new(Expr::Binary(Operator::Mul, leaf(2), leaf(4)))
        )
    );
    assert_eq!(value_of("2+3*4"), 14.0);
}

#[test]
fn parentheses_override_precedence() {
    assert_eq!(value_of("(2+3)*4"), 20.0);
}

#[test]
fn same_precedence_is_left_associative() {
    let (tokens, _) = lex("8-3-2");
    let tree = evaluate(&tokens).unwrap().unwrap();
    assert_eq!(
        tree,
        Expr::Binary(
            Operator::Sub,
            Box::new(Expr::Binary(Operator::Sub, leaf(0), leaf(2))),
            leaf(4)
        )
    );
    assert_eq!(value_of("8-3-2"), 3.0);
    assert_eq!(value_of("16/4/2"), 2.0);
}

#[test]
fn division_by_zero_is_infinite() {
    let v = value_of("6/0");
    assert!(v.is_infinite() && v > 0.0);
    assert!(value_of("0/0").is_nan());
}

#[test]
fn decimals_evaluate() {
    assert_eq!(value_of("12.5+3"), 15.5);
    assert_eq!(value_of("1.5 * (2 - 0.5) / 3"), 0.75);
}

#[test]
fn blank_line_gives_nothing() {
    let (tokens, errors) = lex(" \t  ");
    assert!(tokens.is_empty());
    assert!(errors.is_empty());
    assert_eq!(evaluate(&tokens), Ok(None));
    let (tokens, errors) = lex("");
    assert!(tokens.is_empty() && errors.is_empty());
    assert_eq!(evaluate(&tokens), Ok(None));
}

#[test]
fn empty_parentheses_give_nothing() {
    let (tokens, _) = lex("()");
    assert_eq!(evaluate(&tokens), Ok(None));
}

#[test]
fn unclosed_parenthesis_is_unbalanced() {
    let (tokens, _) = lex("(2+3");
    assert_eq!(evaluate(&tokens), Err(EvalError::UnbalancedParentheses));
}

#[test]
fn unopened_parenthesis_is_unbalanced() {
    let (tokens, _) = lex("2+3)");
    assert_eq!(evaluate(&tokens), Err(EvalError::UnbalancedParentheses));
}

#[test]
fn lone_operator_misses_operands() {
    let (tokens, _) = lex("+");
    assert_eq!(evaluate(&tokens), Err(EvalError::MissingOperand));
    let (tokens, _) = lex("2*");
    assert_eq!(evaluate(&tokens), Err(EvalError::MissingOperand));
    let (tokens, _) = lex("1*+2");
    assert_eq!(evaluate(&tokens), Err(EvalError::MissingOperand));
}

#[test]
fn two_numbers_miss_an_operator() {
    let (tokens, _) = lex("2 3");
    assert_eq!(evaluate(&tokens), Err(EvalError::MissingOperator));
}

#[test]
fn precedence_levels() {
    assert_eq!(Operator::Add.precedence(), Some(Precedence::Low));
    assert_eq!(Operator::Sub.precedence(), Some(Precedence::Low));
    assert_eq!(Operator::Mul.precedence(), Some(Precedence::High));
    assert_eq!(Operator::Div.precedence(), Some(Precedence::High));
    assert_eq!(Operator::LeftParenthesis.precedence(), None);
    assert_eq!(Operator::RightParenthesis.precedence(), None);
    assert!(Precedence::Low < Precedence::High);
}

#[test]
fn canonical_rendering() {
    let (tokens, _) = lex("12.5+ 3*(4)");
    let text: String = render(&tokens).into_iter().collect();
    assert_eq!(text, "12.5 + 3 * ( 4 )");
    let (none, _) = lex("   ");
    assert!(render(&none).is_empty());
}

#[test]
fn round_trip_through_rendering() {
    for line in ["2+3*4", "(2+3)*4", "8-3-2", "6/0", "12.5+3", "1. * (22.25-3)/4", "2 3 +"] {
        let (tokens, errors) = lex(line);
        assert!(errors.is_empty());
        let text: String = render(&tokens).into_iter().collect();
        let (again, errors_again) = lex(&text);
        assert_eq!(again, tokens);
        assert!(errors_again.is_empty());
        assert_eq!(evaluate(&again), evaluate(&tokens));
    }
    let a = value_of("(2+3)*4");
    let (tokens, _) = lex("(2+3)*4");
    let text: String = render(&tokens).into_iter().collect();
    assert_eq!(value_of(&text), a);
}

fn read_in_order(e: &Expr, tokens: &[Token], out: &mut Vec<Token>) {
    match e {
        Expr::Leaf(i) => out.push(tokens[*i].clone()),
        Expr::Binary(o, l, r) => {
            read_in_order(l, tokens, out);
            out.push(Token::Operator(*o));
            read_in_order(r, tokens, out);
        }
    }
}

#[test]
fn tree_reads_back_as_tokens_without_parentheses() {
    for line in ["(2+3)*4", "1-(2-(3-4))*5/6", "((7))", "2*3+4/5-6"] {
        let (tokens, _) = lex(line);
        let tree = evaluate(&tokens).unwrap().unwrap();
        let mut read = Vec::new();
        read_in_order(&tree, &tokens, &mut read);
        let stripped: Vec<Token> = tokens
            .iter()
            .filter(|t| {
                !matches!(
                    t,
                    Token::Operator(Operator::LeftParenthesis | Operator::RightParenthesis)
                )
            })
            .cloned()
            .collect();
        assert_eq!(read, stripped);
    }
    assert_eq!(value_of("1-(2-(3-4))*5/6"), 1.0 - (2.0 - (3.0 - 4.0)) * 5.0 / 6.0);
}
