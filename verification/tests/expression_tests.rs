use geoconverter::expressions::evaluation::{evaluate_postfix, Operation};
use geoconverter::expressions::expressions::{
    float_literals, precompile_expression, to_postfix, tokenize, validate_postfix, Binding,
    BindingValue, CompilationError, CompileFailure, Token,
};
use geoconverter::Real64;

fn number(x: f64) -> Real64 {
    Real64 { bits: x.to_bits() }
}

fn arithmetic(op: Operation, a: Real64, b: Real64) -> Real64 {
    let (a, b) = (f64::from_bits(a.bits), f64::from_bits(b.bits));
    number(match op {
        Operation::Add => a + b,
        Operation::Subtract => a - b,
        Operation::Multiply => a * b,
        Operation::Divide => a / b,
    })
}

/// What the real numbers of a line read as.
fn readings(line: &str) -> Vec<Option<Real64>> {
    match float_literals(line) {
        Some(found) => found.iter().map(|t| t.parse::<f64>().ok().map(number)).collect(),
        None => Vec::new(),
    }
}

fn tokens_of(line: &str) -> Result<(Vec<Token>, Vec<Binding>), CompilationError> {
    tokenize(line, &readings(line))
}

fn check_tokens(line: &str, expected: Vec<Token>) -> (Vec<Token>, Vec<Binding>) {
    let (tokenized, bindings) = tokens_of(line).expect("tokenization failed");
    assert_eq!(tokenized.len(), expected.len());
    for (i, (tok_act, tok_exp)) in tokenized.iter().zip(&expected).enumerate() {
        assert_eq!(*tok_act, *tok_exp, "tokens mismatch at num {}", i);
    }
    (tokenized, bindings)
}

fn check_error_postfix(line: &str) {
    let (tokens, _) = tokens_of(line).expect("tokenization failed");
    match to_postfix(tokens) {
        Err(error) => {
            println!("Ok: {:?}", error);
        }
        Ok(postfix) => {
            let error = validate_postfix(&postfix);
            assert!(error.is_err(), "validation succeeded, that's a fail! {:?}", postfix);
        }
    }
}

fn check_succ_postfix(line: &str) {
    let (tokens, _) = tokens_of(line).expect("tokenization failed");
    let postfix = to_postfix(tokens).expect("postfix failed");
    validate_postfix(&postfix).expect("validation failed");
}

fn similar(line: &str, op: Token) {
    check_tokens(
        line,
        vec![
            Token::CurlyOpen,
            Token::IntValue(1),
            Token::Comma,
            Token::IntValue(2),
            Token::Comma,
            Token::IntValue(3),
            Token::CurlyClose,
            op,
            Token::CurlyOpen,
            Token::IntValue(2),
            Token::Comma,
            Token::IntValue(3),
            Token::Comma,
            Token::IntValue(4),
            Token::CurlyClose,
        ],
    );
}

#[test]
fn test_tokenize() {
    check_tokens("1 +  2", vec![Token::IntValue(1), Token::BinaryPlus, Token::IntValue(2)]);
    check_tokens(
        "1.1   -  2.4",
        vec![Token::FloatValue(number(1.1)), Token::BinaryMinus, Token::FloatValue(number(2.4))],
    );
    check_tokens(
        "{1, 2.1 ,  5.5}",
        vec![
            Token::CurlyOpen,
            Token::IntValue(1),
            Token::Comma,
            Token::FloatValue(number(2.1)),
            Token::Comma,
            Token::FloatValue(number(5.5)),
            Token::CurlyClose,
        ],
    );
    similar("{1,2,3}+{2,3,4}", Token::BinaryPlus);
    similar("{1,2,3}-{2,3,4}", Token::BinaryMinus);
    similar("{1,2,3}*{2,3,4}", Token::Multiply);
    similar("{1,2,3}/{2,3,4}", Token::Divide);
    similar("{1,2,3} +{2,3,4}", Token::BinaryPlus);
    similar("{1,2,3} -{2,3,4}", Token::BinaryMinus);
    similar("{1,2,3} *{2,3,4}", Token::Multiply);
    similar("{1,2,3} /{2,3,4}", Token::Divide);
    similar("{1,2,3}+ {2,3,4}", Token::BinaryPlus);
    similar("{1,2,3}- {2,3,4}", Token::BinaryMinus);
    similar("{1,2,3}* {2,3,4}", Token::Multiply);
    similar("{1,2,3}/ {2,3,4}", Token::Divide);
    check_tokens("}.x", vec![Token::CurlyClose, Token::VecIndex(0)]);
    check_tokens("@foo.y", vec![Token::Binding(0), Token::VecIndex(1)]);
    check_tokens(
        "(2).y",
        vec![Token::BracketOpen, Token::IntValue(2), Token::BracketClose, Token::VecIndex(1)],
    );
    check_tokens(
        ".2+.1",
        vec![Token::FloatValue(number(0.2)), Token::BinaryPlus, Token::FloatValue(number(0.1))],
    );
    check_tokens(
        "-.2+.1",
        vec![
            Token::UnaryMinus,
            Token::FloatValue(number(0.2)),
            Token::BinaryPlus,
            Token::FloatValue(number(0.1)),
        ],
    );
    check_tokens(
        "-2.+1.",
        vec![
            Token::UnaryMinus,
            Token::FloatValue(number(2.)),
            Token::BinaryPlus,
            Token::FloatValue(number(1.)),
        ],
    );
    check_tokens("1.2", vec![Token::FloatValue(number(1.2))]);
    check_tokens(
        "{1,2,3}.z + {1,2,3}.y",
        vec![
            Token::CurlyOpen,
            Token::IntValue(1),
            Token::Comma,
            Token::IntValue(2),
            Token::Comma,
            Token::IntValue(3),
            Token::CurlyClose,
            Token::VecIndex(2),
            Token::BinaryPlus,
            Token::CurlyOpen,
            Token::IntValue(1),
            Token::Comma,
            Token::IntValue(2),
            Token::Comma,
            Token::IntValue(3),
            Token::CurlyClose,
            Token::VecIndex(1),
        ],
    );
}

#[test]
fn test_postfix() {
    let (tokens, _) = tokens_of("{1, 2.1 ,  5.5}").expect("tokenization failed");
    let postfix = to_postfix(tokens).expect("postfix failed");
    assert_eq!(
        postfix,
        vec![
            Token::IntValue(1),
            Token::FloatValue(number(2.1)),
            Token::FloatValue(number(5.5)),
            Token::MakeVec(3),
        ]
    );
    validate_postfix(&postfix).expect("validation failed");

    let (tokens, _) = tokens_of("-11+{1+2, 2.1 + 3*(2+4)*2 ,  5.5-(1+3)*(4+5)}*9")
        .expect("tokenization failed");
    let postfix = to_postfix(tokens).expect("postfix failed");
    assert_eq!(
        postfix,
        vec![
            Token::IntValue(11),
            Token::UnaryMinus,
            Token::IntValue(1),
            Token::IntValue(2),
            Token::BinaryPlus,
            Token::FloatValue(number(2.1)),
            Token::IntValue(3),
            Token::IntValue(2),
            Token::IntValue(4),
            Token::BinaryPlus,
            Token::Multiply,
            Token::IntValue(2),
            Token::Multiply,
            Token::BinaryPlus,
            Token::FloatValue(number(5.5)),
            Token::IntValue(1),
            Token::IntValue(3),
            Token::BinaryPlus,
            Token::IntValue(4),
            Token::IntValue(5),
            Token::BinaryPlus,
            Token::Multiply,
            Token::BinaryMinus,
            Token::MakeVec(3),
            Token::IntValue(9),
            Token::Multiply,
            Token::BinaryPlus,
        ]
    );
    validate_postfix(&postfix).expect("validation failed");
}

#[test]
fn test_postfix_fail() {
    check_error_postfix("1+");
    check_error_postfix("1*");
    check_error_postfix("1+*2");
    check_error_postfix("1+(2-");
    check_error_postfix("1+(2-)");
    check_error_postfix("1+((2-3)");
    check_error_postfix("1+(2-3))");
    check_error_postfix("*(1+(2-3)");
    check_error_postfix("1,2.1 ,5.5}");
    check_error_postfix("{{1,2.1 ,5.5}");
    check_error_postfix("1,2.1 ,5.5}");
}

#[test]
fn test_postfix_valid() {
    check_succ_postfix("1");
    check_succ_postfix("1+2");
    check_succ_postfix("1+(2)");
    check_succ_postfix("(1)+2");
    check_succ_postfix("@foo");
    check_succ_postfix("@foo*2");
    check_succ_postfix("-@foo");
    check_succ_postfix("1+@foo");
    check_succ_postfix("@foo+2");
    check_succ_postfix("@foo*@bar");
    check_succ_postfix("@foo+1*@bar");
    check_succ_postfix("{1,2,3}");
    check_succ_postfix("{1,2,3} + {2,3,4}");
}

#[test]
fn expressions_test_parsing_simplest() {
    let (tokenized, _) = check_tokens(
        "5+33.33*22",
        vec![
            Token::IntValue(5),
            Token::BinaryPlus,
            Token::FloatValue(number(33.33)),
            Token::Multiply,
            Token::IntValue(22),
        ],
    );
    let postfix = to_postfix(tokenized).expect("postfix failed");
    let expected = vec![
        Token::IntValue(5),
        Token::FloatValue(number(33.33)),
        Token::IntValue(22),
        Token::Multiply,
        Token::BinaryPlus,
    ];
    assert_eq!(postfix.len(), expected.len());
    for (i, (tok_act, tok_exp)) in postfix.iter().zip(&expected).enumerate() {
        assert_eq!(*tok_act, *tok_exp, "tokens mismatch at num {}", i);
    }

    let result = evaluate_postfix(&postfix, &vec![], &arithmetic).expect("evaluation failed");
    assert_eq!(result, BindingValue::Float(number(738.26)));
}

#[test]
fn expressions_test_parsing_variables() {
    let (tokenized, bindings) = check_tokens(
        "-2*(3.4+@a)-91*@bc",
        vec![
            Token::UnaryMinus,
            Token::IntValue(2),
            Token::Multiply,
            Token::BracketOpen,
            Token::FloatValue(number(3.4)),
            Token::BinaryPlus,
            Token::Binding(0),
            Token::BracketClose,
            Token::BinaryMinus,
            Token::IntValue(91),
            Token::Multiply,
            Token::Binding(1),
        ],
    );
    let postfix = to_postfix(tokenized).expect("postfix failed");
    let expected = vec![
        Token::IntValue(2),
        Token::UnaryMinus,
        Token::FloatValue(number(3.4)),
        Token::Binding(0),
        Token::BinaryPlus,
        Token::Multiply,
        Token::IntValue(91),
        Token::Binding(1),
        Token::Multiply,
        Token::BinaryMinus,
    ];
    assert_eq!(postfix.len(), expected.len());
    for (i, (tok_act, tok_exp)) in postfix.iter().zip(&expected).enumerate() {
        assert_eq!(*tok_act, *tok_exp, "tokens mismatch at num {}", i);
    }
    assert_eq!(bindings[0].name, "a");
    assert_eq!(bindings[1].name, "bc");
    assert_eq!(bindings[0].value, BindingValue::Unknown);
    let mut bind_values: Vec<BindingValue> = bindings.iter().map(|b| b.value).collect();
    bind_values[0] = BindingValue::Float(number(7.79));
    bind_values[1] = BindingValue::Float(number(2.345));

    let result = evaluate_postfix(&postfix, &bind_values, &arithmetic).expect("evaluation failed");
    assert_eq!(result, BindingValue::Float(number(-235.775)));
}

fn reason(line: &str) -> CompileFailure {
    match precompile_expression(line, &readings(line)) {
        Ok(_) => panic!("{:?} compiled", line),
        Err(e) => e.reason,
    }
}

#[test]
fn each_compile_failure_has_its_input() {
    assert_eq!(reason("1 # 2"), CompileFailure::BadSymbol);
    assert_eq!(reason("@a.q"), CompileFailure::BadIndex);
    assert_eq!(reason("@a.xy"), CompileFailure::BadIndex);
    assert_eq!(reason("99999999999999999999"), CompileFailure::BadInt);
    assert_eq!(reason("1.2.3"), CompileFailure::BadFloat);
    assert_eq!(reason("1+2)"), CompileFailure::BracketMismatch);
    assert_eq!(reason("{1+2)"), CompileFailure::BracketMismatch);
    assert_eq!(reason("1,2}"), CompileFailure::CurlyMismatch);
    assert_eq!(reason("(1,2}"), CompileFailure::CurlyMismatch);
    assert_eq!(reason("(1+2"), CompileFailure::UnexpectedToken);
    assert_eq!(reason("1+"), CompileFailure::NotEnoughOperands);
    assert_eq!(reason("1 2"), CompileFailure::TooManyValues);
    assert_eq!(reason(""), CompileFailure::TooManyValues);
}

#[test]
fn largest_integer_is_read() {
    check_tokens("9223372036854775807", vec![Token::IntValue(i64::MAX)]);
    assert_eq!(reason("9223372036854775808"), CompileFailure::BadInt);
}

#[test]
fn whitespace_at_the_ends_is_dropped() {
    // no-break space and em space are whitespace, though not of ASCII
    check_tokens("\u{a0} 1+2 \u{2003}", vec![
        Token::IntValue(1),
        Token::BinaryPlus,
        Token::IntValue(2),
    ]);
    assert_eq!(reason("1\u{a0}+2"), CompileFailure::BadSymbol);
}

#[test]
fn a_component_is_named_by_letters_of_any_script() {
    // a letter goes on with the name, which then is none of x y z w
    assert_eq!(reason("@a.x\u{e9}"), CompileFailure::BadIndex);
    // a digit ends the name, and stands for nothing by itself
    assert_eq!(reason("@a.x1"), CompileFailure::BadSymbol);
    check_tokens("@a.x 1", vec![Token::Binding(0), Token::VecIndex(0), Token::IntValue(1)]);
}

#[test]
fn float_literals_are_listed_in_order() {
    let found = float_literals("1.5 + 2 * .25 - @a.x + 3.").expect("scan failed");
    assert_eq!(found, vec!["1.5".to_string(), ".25".to_string(), "3.".to_string()]);
    assert_eq!(float_literals("1.5 # 2"), None);
}

#[test]
fn a_real_without_a_reading_is_an_error() {
    let e = tokenize("1.5+2.5", &vec![Some(number(1.5))]).err().expect("tokenized");
    assert_eq!(e.reason, CompileFailure::BadFloat);
    let e = tokenize("1.5+2.5", &vec![Some(number(1.5)), None]).err().expect("tokenized");
    assert_eq!(e.reason, CompileFailure::BadFloat);
}

#[test]
fn precompiled_code_holds_postfix_and_names() {
    let line = "@foo+1*@bar";
    let mut code = precompile_expression(line, &readings(line)).expect("compile failed");
    assert_eq!(
        *code.postfix(),
        vec![
            Token::Binding(0),
            Token::IntValue(1),
            Token::Binding(1),
            Token::Multiply,
            Token::BinaryPlus,
        ]
    );
    assert_eq!(code.binding_names(), vec!["foo", "bar"]);
    assert_eq!(code.clone_binding_values(), vec![BindingValue::Unknown, BindingValue::Unknown]);
    code.set_bindings_from_vec(&vec![BindingValue::Int(7)]);
    assert_eq!(code.clone_binding_values(), vec![BindingValue::Int(7), BindingValue::Unknown]);
    assert_eq!(code.binding_names(), vec!["foo", "bar"]);
}
