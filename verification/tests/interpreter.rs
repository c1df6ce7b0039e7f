use exprlang::config::Config;
use exprlang::error::Error;
use exprlang::eval::{Evaluator, StepEvent, Task};
use exprlang::node::make_tree;
use exprlang::parser::{get_operation_token, parse_block, parse_line, split_statements, to_postfix};
use exprlang::scalar::Scalar;
use exprlang::scan::{tokenize, Lexeme};
use exprlang::state::State;
use exprlang::token::{OperationType, Token, TokenType};

fn scalar(x: f32) -> Scalar {
    Scalar { bits: x.to_bits() }
}

fn value(s: Scalar) -> f32 {
    f32::from_bits(s.bits)
}

fn standard_config() -> Config {
    let mut config = Config::standard();
    config.add_constant(String::from("pi"), scalar(std::f32::consts::PI));
    config.add_constant(String::from("e"), scalar(std::f32::consts::E));
    config
}

/// Answers one task of the evaluator with ordinary 32-bit float arithmetic.
fn answer(task: &Task) -> Result<Scalar, String> {
    match task {
        Task::BinOp(op, a, b) => {
            let x = value(*a);
            let y = value(*b);
            let r = match op {
                OperationType::Add => x + y,
                OperationType::Sub => x - y,
                OperationType::Mul => x * y,
                OperationType::Div => x / y,
                _ => return Err(format!("operator task out of range")),
            };
            Ok(scalar(r))
        }
        Task::CallFun(name, args) => {
            let r = match (name.as_str(), args.len()) {
                ("sin", 1) => value(args[0]).sin(),
                ("cos", 1) => value(args[0]).cos(),
                ("max", 2) => value(args[0]).max(value(args[1])),
                ("min", 2) => value(args[0]).min(value(args[1])),
                _ => return Err(format!("unknown function {}", name)),
            };
            Ok(scalar(r))
        }
        Task::ReadNumber(text) => match text.parse::<f32>() {
            Ok(x) => Ok(scalar(x)),
            Err(_) => Err(format!("unreadable number {}", text)),
        },
    }
}

/// Runs a whole program and returns its result and final state.
fn run_program(text: &str) -> Result<(Option<f32>, State), Error> {
    let config = standard_config();
    let trees = parse_block(text, &config)?;
    let mut machine = Evaluator::for_block(&trees)?;
    let mut state = State::new();
    let mut steps = 0u32;
    loop {
        steps += 1;
        assert!(steps < 1_000_000, "evaluator did not settle");
        match machine.step(&mut state) {
            StepEvent::Working => {}
            StepEvent::Pending(task) => match answer(&task) {
                Ok(v) => machine.provide(v),
                Err(m) => panic!("{}", m),
            },
            StepEvent::Done(v) => return Ok((v.map(value), state)),
            StepEvent::Failed(e) => return Err(e),
        }
    }
}

fn eval_value(text: &str) -> f32 {
    let (v, _) = run_program(text).expect("program failed");
    v.expect("program produced no value")
}

fn state_value(state: &State, name: &str) -> Option<f32> {
    state.get(&String::from(name)).map(value)
}

#[test]
fn single_number() {
    assert_eq!(eval_value("42"), 42.0);
}

#[test]
fn decimal_literal() {
    assert_eq!(eval_value("2.5 + 0.25"), 2.75);
}

#[test]
fn precedence_mul_before_add() {
    assert_eq!(eval_value("1 + 2 * 3"), 7.0);
}

#[test]
fn precedence_div_before_sub() {
    assert_eq!(eval_value("10 - 8 / 4"), 8.0);
}

#[test]
fn parens_override_precedence() {
    assert_eq!(eval_value("(1 + 2) * 3"), 9.0);
}

#[test]
fn subtraction_left_associative() {
    assert_eq!(eval_value("8 - 3 - 2"), 3.0);
}

#[test]
fn division_left_associative() {
    assert_eq!(eval_value("8 / 2 / 2"), 2.0);
}

#[test]
fn nested_parens() {
    assert_eq!(eval_value("((((5))))"), 5.0);
}

#[test]
fn mixed_expression() {
    assert_eq!(eval_value("2 * (3 + 4) - 5"), 9.0);
}

#[test]
fn assignment_then_read() {
    let (v, state) = run_program("$x = 41.5; $x").expect("program failed");
    assert_eq!(v, Some(41.5));
    assert_eq!(state_value(&state, "x"), Some(41.5));
}

#[test]
fn assignment_alone_returns_nothing() {
    let (v, state) = run_program("$x = 3").expect("program failed");
    assert_eq!(v, None);
    assert_eq!(state_value(&state, "x"), Some(3.0));
}

#[test]
fn declare_binds_zero() {
    let (v, state) = run_program("let $x").expect("program failed");
    assert_eq!(v, None);
    assert_eq!(state_value(&state, "x"), Some(0.0));
}

#[test]
fn declare_twice_is_idempotent() {
    let (_, once) = run_program("let $x").expect("program failed");
    let (_, twice) = run_program("let $x; let $x").expect("program failed");
    assert_eq!(state_value(&once, "x"), state_value(&twice, "x"));
    assert_eq!(once.entries().len(), twice.entries().len());
}

#[test]
fn declare_keeps_existing_value() {
    let (_, state) = run_program("$x = 7; let $x").expect("program failed");
    assert_eq!(state_value(&state, "x"), Some(7.0));
}

#[test]
fn block_stops_at_first_value() {
    let (v, state) = run_program("$a = 2; $a + 3; $a = 99").expect("program failed");
    assert_eq!(v, Some(5.0));
    assert_eq!(state_value(&state, "a"), Some(2.0));
}

#[test]
fn block_example_with_max() {
    let (v, state) = run_program("$a = 3; $b = max($a, 3); $a + 2").expect("program failed");
    assert_eq!(v, Some(5.0));
    assert_eq!(state_value(&state, "a"), Some(3.0));
    assert_eq!(state_value(&state, "b"), Some(3.0));
}

#[test]
fn sin_of_zero() {
    assert_eq!(eval_value("sin(0)"), 0.0);
}

#[test]
fn cos_of_zero() {
    assert_eq!(eval_value("cos(0)"), 1.0);
}

#[test]
fn max_of_argument_expression() {
    assert_eq!(eval_value("max(1 + 2, 2)"), 3.0);
}

#[test]
fn min_of_two() {
    assert_eq!(eval_value("min(4, 2.5)"), 2.5);
}

#[test]
fn max_commutes_on_samples() {
    let pairs = [(1.0f32, 2.0f32), (3.5, 0.0), (7.25, 7.25), (0.25, 8.0)];
    for (a, b) in pairs {
        let left = eval_value(&format!("max({}, {})", a, b));
        let right = eval_value(&format!("max({}, {})", b, a));
        assert_eq!(left, right);
        let left = eval_value(&format!("min({}, {})", a, b));
        let right = eval_value(&format!("min({}, {})", b, a));
        assert_eq!(left, right);
    }
}

#[test]
fn constant_pi() {
    assert_eq!(eval_value("pi"), std::f32::consts::PI);
}

#[test]
fn constant_in_expression() {
    assert_eq!(eval_value("2 * pi"), 2.0 * std::f32::consts::PI);
}

#[test]
fn division_by_zero_is_infinite() {
    assert_eq!(eval_value("1 / 0"), f32::INFINITY);
}

#[test]
fn missing_operand_on_dangling_assignment() {
    assert!(matches!(run_program("$x = "), Err(Error::MissingOperand)));
}

#[test]
fn missing_operand_on_dangling_operator() {
    assert!(matches!(run_program("1 + "), Err(Error::MissingOperand)));
}

#[test]
fn unbalanced_open_paren() {
    assert!(matches!(run_program("(1 + 2"), Err(Error::UnbalancedParens)));
}

#[test]
fn unbalanced_close_paren() {
    assert!(matches!(run_program("1 + 2)"), Err(Error::UnbalancedParens)));
}

#[test]
fn undefined_variable_read() {
    assert!(matches!(run_program("$nope + 1"), Err(Error::UndefinedVariable)));
}

#[test]
fn invalid_token_rejected() {
    assert!(matches!(run_program("1 # 2"), Err(Error::InvalidToken(_))));
}

#[test]
fn invalid_bare_word_rejected() {
    assert!(matches!(run_program("frobnicate + 1"), Err(Error::InvalidToken(_))));
}

#[test]
fn lone_sigil_rejected() {
    assert!(matches!(run_program("$ + 1"), Err(Error::InvalidToken(_))));
}

#[test]
fn invalid_assignment_target() {
    assert!(matches!(run_program("2 = 3"), Err(Error::InvalidAssignmentTarget)));
}

#[test]
fn dangling_operands_detected() {
    assert!(matches!(run_program("1 2"), Err(Error::DanglingOperands)));
}

#[test]
fn arity_mismatch_on_function() {
    assert!(matches!(run_program("max(1)"), Err(Error::ArityMismatch)));
}

#[test]
fn blank_statements_are_skipped() {
    let (v, _) = run_program("\n\n; ;1 + 1; \n").expect("program failed");
    assert_eq!(v, Some(2.0));
}

#[test]
fn empty_program_returns_nothing() {
    let (v, state) = run_program("").expect("program failed");
    assert_eq!(v, None);
    assert_eq!(state.entries().len(), 0);
}

#[test]
fn state_updates_accumulate() {
    let (v, state) = run_program("$a = 1; $b = $a + 1; $c = $b * 3; $c").expect("program failed");
    assert_eq!(v, Some(6.0));
    assert_eq!(state_value(&state, "a"), Some(1.0));
    assert_eq!(state_value(&state, "b"), Some(2.0));
    assert_eq!(state_value(&state, "c"), Some(6.0));
}

#[test]
fn assignment_overwrites() {
    let (_, state) = run_program("$a = 1; $a = 2").expect("program failed");
    assert_eq!(state_value(&state, "a"), Some(2.0));
    assert_eq!(state.entries().len(), 1);
}

#[test]
fn tokenize_classifies_lexemes() {
    let config = standard_config();
    let lexemes = tokenize("$x = 3 + sin(pi)", &config).expect("tokenize failed");
    assert_eq!(lexemes.len(), 8);
    assert!(matches!(&lexemes[0], Lexeme::Variable(n) if n == "x"));
    assert!(matches!(&lexemes[1], Lexeme::Symbol(s) if s == "="));
    assert!(matches!(&lexemes[2], Lexeme::Number(_)));
    assert!(matches!(&lexemes[3], Lexeme::Symbol(s) if s == "+"));
    assert!(matches!(&lexemes[4], Lexeme::Symbol(s) if s == "sin"));
    assert!(matches!(&lexemes[5], Lexeme::Symbol(s) if s == "("));
    assert!(matches!(&lexemes[6], Lexeme::Number(_)));
    assert!(matches!(&lexemes[7], Lexeme::Symbol(s) if s == ")"));
}

#[test]
fn parse_line_emits_postfix() {
    let config = standard_config();
    let tokens = parse_line("1 + 2 * 3", &config).expect("parse failed");
    let kinds: Vec<TokenType> = tokens.iter().map(|t| t.token_type()).collect();
    assert_eq!(
        kinds,
        vec![
            TokenType::Number,
            TokenType::Number,
            TokenType::Number,
            TokenType::Operation,
            TokenType::Operation,
        ]
    );
    assert!(matches!(tokens[3], Token::Operation(OperationType::Mul)));
    assert!(matches!(tokens[4], Token::Operation(OperationType::Add)));
}

#[test]
fn operation_type_from_str() {
    assert!(matches!(OperationType::from_str("+"), Some(OperationType::Add)));
    assert!(matches!(OperationType::from_str("Sub"), Some(OperationType::Sub)));
    assert!(matches!(OperationType::from_str("mul"), Some(OperationType::Mul)));
    assert!(matches!(OperationType::from_str("/"), Some(OperationType::Div)));
    assert!(matches!(OperationType::from_str("="), Some(OperationType::Assign)));
    assert!(matches!(OperationType::from_str("let"), Some(OperationType::Create)));
    assert!(OperationType::from_str("??").is_none());
}

#[test]
fn get_operation_token_classifies() {
    let config = standard_config();
    assert!(matches!(
        get_operation_token(String::from("+"), &config),
        Ok(Some(Token::Operation(OperationType::Add)))
    ));
    assert!(matches!(
        get_operation_token(String::from("sin"), &config),
        Ok(Some(Token::Function(_)))
    ));
    assert!(matches!(get_operation_token(String::from("("), &config), Ok(None)));
    assert!(matches!(
        get_operation_token(String::from("junk"), &config),
        Err(Error::InvalidToken(_))
    ));
}

#[test]
fn split_statements_on_both_separators() {
    let parts = split_statements("a\nb;c");
    let texts: Vec<&str> = parts.iter().map(|s| s.as_str()).collect();
    assert_eq!(texts, vec!["a", "b", "c"]);
}

#[test]
fn make_tree_builds_operator_shape() {
    let config = standard_config();
    let tokens = parse_line("1 - 2", &config).expect("parse failed");
    let tree = make_tree(&tokens, &config).expect("build failed");
    assert!(matches!(tree.token, Token::Operation(OperationType::Sub)));
    assert_eq!(tree.children.len(), 2);
    // the operand pushed first is the left child
    assert!(matches!(&tree.children[0].token, Token::Number(_)));
}

#[test]
fn make_tree_rejects_empty_stream() {
    let config = standard_config();
    let tokens: Vec<Token> = Vec::new();
    assert!(matches!(make_tree(&tokens, &config), Err(Error::EmptyExpression)));
}

#[test]
fn to_postfix_orders_by_precedence() {
    let config = standard_config();
    let lexemes = tokenize("2 + 3 * 4", &config).expect("tokenize failed");
    let tokens = to_postfix(&lexemes, &config).expect("convert failed");
    assert_eq!(tokens.len(), 5);
    assert!(matches!(tokens[3], Token::Operation(OperationType::Mul)));
    assert!(matches!(tokens[4], Token::Operation(OperationType::Add)));
}

#[test]
fn deep_nesting_is_rejected() {
    let mut text = String::new();
    for _ in 0..1500 {
        text.push_str("1+");
    }
    text.push('1');
    assert!(matches!(run_program(&text), Err(Error::TooDeep)));
}

#[test]
fn comma_delimits_compound_arguments() {
    assert_eq!(eval_value("max(1 + 2, 2 * 2)"), 4.0);
}

#[test]
fn double_equals_is_invalid() {
    assert!(matches!(run_program("1 == 2"), Err(Error::InvalidToken(_))));
}

#[test]
fn assignment_from_expression() {
    let (_, state) = run_program("$r = 2 * (3 + 1)").expect("program failed");
    assert_eq!(state_value(&state, "r"), Some(8.0));
}

#[test]
fn variables_with_digits_and_underscores() {
    let (v, state) = run_program("$a_1 = 5; $a_1 * 2").expect("program failed");
    assert_eq!(v, Some(10.0));
    assert_eq!(state_value(&state, "a_1"), Some(5.0));
}
