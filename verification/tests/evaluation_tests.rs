use geoconverter::expressions::evaluation::{
    evaluate_expression, evaluate_expression_precompiled,
    evaluate_expression_precompiled_with_bindings, evaluate_postfix, look_up, negate,
    whole_operation, EvaluationError, EvaluationFailure, Operation,
};
use geoconverter::expressions::expressions::{
    float_literals, precompile_expression, to_postfix, tokenize, Binding, BindingValue,
    CompilationError, CompileFailure, ExpressionError, PrecompiledCode, Token,
};
use geoconverter::expressions::vec_types::Vector;
use geoconverter::Real64;

fn decimal(x: f64) -> Real64 {
    Real64 { bits: x.to_bits() }
}

fn binary64(op: Operation, a: Real64, b: Real64) -> Real64 {
    let (a, b) = (f64::from_bits(a.bits), f64::from_bits(b.bits));
    decimal(match op {
        Operation::Add => a + b,
        Operation::Subtract => a - b,
        Operation::Multiply => a * b,
        Operation::Divide => a / b,
    })
}

fn readings_of(line: &str) -> Vec<Option<Real64>> {
    match float_literals(line) {
        Some(found) => found.iter().map(|t| t.parse::<f64>().ok().map(decimal)).collect(),
        None => Vec::new(),
    }
}

fn compile(line: &str) -> PrecompiledCode {
    precompile_expression(line, &readings_of(line)).expect("failed to 'compile'")
}

fn result_of(line: &str) -> BindingValue {
    evaluate_expression_precompiled_with_bindings(&compile(line), &vec![], &binary64)
        .expect("failed to evaluate")
}

fn vector(x: f64, y: f64, z: f64) -> BindingValue {
    BindingValue::Vector3(Vector::new(decimal(x), decimal(y), decimal(z)))
}

fn scalar(x: f64) -> BindingValue {
    BindingValue::Float(decimal(x))
}

fn failure(postfix: Vec<Token>, bindings: Vec<BindingValue>) -> EvaluationFailure {
    evaluate_postfix(&postfix, &bindings, &binary64).expect_err("works out").reason
}

#[test]
fn test_expressions() {
    assert_eq!(BindingValue::Int(4), result_of("1+3"));
    assert_eq!(scalar(4.), result_of("1.0+3"));
    assert_eq!(scalar(4.), result_of("1+3.0"));
    assert_eq!(scalar(4.), result_of("1.0+3.0"));
    assert_eq!(vector(11., 22., 33.), result_of("{1.0, 2, 3} + {10, 20.0, 30.0}"));
    assert_eq!(vector(-9., -18., -27.), result_of("{1.0, 2, 3} - {10, 20.0, 30.0}"));
    assert_eq!(vector(11., 21., 31.), result_of("1 + {10, 20.0, 30.0}"));
    assert_eq!(vector(11., 21., 31.), result_of("{10, 20.0, 30.0}+1"));
    assert_eq!(vector(20., 40., 60.), result_of("{10, 20.0, 30.0}*2"));
    assert_eq!(vector(5., 10., 15.), result_of("{10, 20.0, 30.0}/2"));
    assert_eq!(vector(3.5, -5., 6.5), result_of("{1+2*3, 5*(2-4), (1.0+5.5)*2}/2"));
    assert_eq!(vector(-1., -2., -3.), result_of("-{1,2,3}"));
    assert_eq!(vector(1., 2., 3.), result_of("+{1,2,3}"));
    assert_eq!(scalar(1.), result_of("{1,2,3}.x"));
    assert_eq!(scalar(2.), result_of("{1,2,3}.y"));
    assert_eq!(scalar(3.), result_of("{1,2,3}.z"));
    assert_eq!(scalar(6.5), result_of("({1,2,3} + 5.5).x"));
    assert_eq!(scalar(7.5), result_of("({1,2,3} + 5.5).y"));
    assert_eq!(scalar(12.5), result_of("({1,2,3} + 5.5).z + (2*{1,2,3}).y"));
    assert_eq!(
        vector(18.5, 12.5, 22.5),
        result_of("({1,2,3} + 5.5).z + {5,2,7}*{1,2,3}.y")
    );
}

#[test]
fn test_evaluate() {
    let line = "-11+{1+2, 2.1 + 3*(2+4)*2 ,  5.5-(1+3)*(4+5)}*9";
    let (tokens, _) = tokenize(line, &readings_of(line)).expect("tokenization failed");
    let postfix = to_postfix(tokens).expect("postfix failed");

    let value = evaluate_postfix(&postfix, &vec![], &binary64).expect("failed to evaluate");

    assert_eq!(vector(16., -11. + (2.1 + 3. * (2. + 4.) * 2.) * 9., -285.5), value);
}

#[test]
fn integers_stay_integers() {
    assert_eq!(result_of("7-9"), BindingValue::Int(-2));
    assert_eq!(result_of("6*7"), BindingValue::Int(42));
    assert_eq!(result_of("7/2"), BindingValue::Int(3));
    assert_eq!(result_of("-7/2"), BindingValue::Int(-3));
    assert_eq!(result_of("7/(0-2)"), BindingValue::Int(-3));
    assert_eq!(result_of("(0-7)/(0-2)"), BindingValue::Int(3));
    assert_eq!(result_of("0/5"), BindingValue::Int(0));
    assert_eq!(result_of("9223372036854775807+0"), BindingValue::Int(i64::MAX));
    assert_eq!(result_of("+5"), BindingValue::Int(5));
    assert_eq!(result_of("-5"), BindingValue::Int(-5));
}

#[test]
fn whole_operations_say_when_they_fail() {
    let overflow = Err(EvaluationError { reason: EvaluationFailure::IntegerOverflow });
    let by_zero = Err(EvaluationError { reason: EvaluationFailure::DivisionByZero });
    assert_eq!(whole_operation(Operation::Add, i64::MAX, 1), overflow);
    assert_eq!(whole_operation(Operation::Add, i64::MAX, 0), Ok(i64::MAX));
    assert_eq!(whole_operation(Operation::Subtract, i64::MIN, 1), overflow);
    assert_eq!(whole_operation(Operation::Subtract, 3, 5), Ok(-2));
    assert_eq!(whole_operation(Operation::Multiply, i64::MAX, 2), overflow);
    assert_eq!(whole_operation(Operation::Multiply, -3, 5), Ok(-15));
    assert_eq!(whole_operation(Operation::Divide, 1, 0), by_zero);
    assert_eq!(whole_operation(Operation::Divide, 0, 0), by_zero);
    assert_eq!(whole_operation(Operation::Divide, i64::MIN, -1), overflow);
    assert_eq!(whole_operation(Operation::Divide, i64::MIN, 1), Ok(i64::MIN));
    assert_eq!(whole_operation(Operation::Divide, -9, 4), Ok(-2));
}

#[test]
fn the_sign_of_a_real_is_turned_bit_for_bit() {
    assert_eq!(negate(decimal(1.5)), decimal(-1.5));
    assert_eq!(negate(decimal(-1.5)), decimal(1.5));
    assert_eq!(negate(decimal(0.0)), decimal(-0.0));
    assert_eq!(negate(decimal(-0.0)), decimal(0.0));
    assert_eq!(negate(decimal(f64::INFINITY)), decimal(f64::NEG_INFINITY));
    assert_eq!(negate(Real64 { bits: 0x7ff8_0000_0000_0001 }), Real64 { bits: 0xfff8_0000_0000_0001 });
}

#[test]
fn operands_keep_their_sides() {
    assert_eq!(result_of("1.5-4"), scalar(-2.5));
    assert_eq!(result_of("4-1.5"), scalar(2.5));
    assert_eq!(result_of("1/4.0"), scalar(0.25));
    assert_eq!(result_of("1 - {10, 20, 30}"), vector(-9., -19., -29.));
    assert_eq!(result_of("{10, 20, 30} - 1"), vector(9., 19., 29.));
    assert_eq!(result_of("60.0 / {1, 2, 3}"), vector(60., 30., 20.));
    assert_eq!(result_of("{2, 4, 6} * {1, 2, 3}"), vector(2., 8., 18.));
    assert_eq!(result_of("{2, 4, 6} / {1, 2, 3}"), vector(2., 2., 2.));
}

#[test]
fn the_arithmetic_that_is_handed_in_is_used() {
    let always_seven = |_: Operation, _: Real64, _: Real64| decimal(7.);
    let code = compile("1.5+2.5");
    assert_eq!(
        evaluate_expression_precompiled_with_bindings(&code, &vec![], &always_seven),
        Ok(scalar(7.))
    );
    let code = compile("{1,2,3}*2");
    assert_eq!(
        evaluate_expression_precompiled_with_bindings(&code, &vec![], &always_seven),
        Ok(vector(7., 7., 7.))
    );
    // integers are not its business
    let code = compile("1+2");
    assert_eq!(
        evaluate_expression_precompiled_with_bindings(&code, &vec![], &always_seven),
        Ok(BindingValue::Int(3))
    );
}

#[test]
fn each_evaluation_failure_has_its_input() {
    let v = Token::VectorValue(Vector::new(decimal(1.), decimal(2.), decimal(3.)));
    assert_eq!(
        failure(vec![Token::Binding(0)], vec![BindingValue::Unknown]),
        EvaluationFailure::UnsetBinding
    );
    assert_eq!(failure(vec![Token::Binding(0)], vec![]), EvaluationFailure::MissingBinding);
    assert_eq!(
        failure(vec![Token::IntValue(1), Token::VecIndex(0)], vec![]),
        EvaluationFailure::NotAVector
    );
    assert_eq!(
        failure(
            vec![
                Token::IntValue(1),
                Token::IntValue(2),
                Token::IntValue(3),
                Token::MakeVec(3),
                Token::VecIndex(3)
            ],
            vec![]
        ),
        EvaluationFailure::NoSuchComponent
    );
    assert_eq!(failure(vec![Token::VecIndex(0)], vec![]), EvaluationFailure::MissingOperand);
    assert_eq!(failure(vec![Token::UnaryPlus], vec![]), EvaluationFailure::MissingOperand);
    assert_eq!(failure(vec![Token::UnaryMinus], vec![]), EvaluationFailure::MissingOperand);
    assert_eq!(
        failure(vec![Token::IntValue(1), Token::BinaryPlus], vec![]),
        EvaluationFailure::MissingOperand
    );
    assert_eq!(
        failure(vec![Token::IntValue(1), Token::IntValue(2), Token::MakeVec(3)], vec![]),
        EvaluationFailure::MissingOperand
    );
    assert_eq!(
        failure(
            vec![Token::IntValue(1), Token::Binding(0), Token::IntValue(2), Token::MakeVec(3)],
            vec![vector(1., 2., 3.)]
        ),
        EvaluationFailure::BadOperand
    );
    assert_eq!(
        failure(vec![Token::IntValue(1), Token::IntValue(2), Token::MakeVec(2)], vec![]),
        EvaluationFailure::UnsupportedVector
    );
    assert_eq!(failure(vec![Token::BracketOpen], vec![]), EvaluationFailure::UnexpectedToken);
    assert_eq!(failure(vec![Token::Comma], vec![]), EvaluationFailure::UnexpectedToken);
    assert_eq!(failure(vec![v], vec![]), EvaluationFailure::UnexpectedToken);
    assert_eq!(
        failure(vec![Token::IntValue(i64::MIN), Token::UnaryMinus], vec![]),
        EvaluationFailure::IntegerOverflow
    );
    assert_eq!(
        failure(vec![Token::IntValue(i64::MAX), Token::IntValue(1), Token::BinaryPlus], vec![]),
        EvaluationFailure::IntegerOverflow
    );
    assert_eq!(
        failure(vec![Token::IntValue(1), Token::IntValue(0), Token::Divide], vec![]),
        EvaluationFailure::DivisionByZero
    );
    assert_eq!(failure(vec![], vec![]), EvaluationFailure::NoValue);
}

#[test]
fn what_is_on_top_in_the_end_is_the_result() {
    assert_eq!(
        evaluate_postfix(&vec![Token::IntValue(1), Token::IntValue(2)], &vec![], &binary64),
        Ok(BindingValue::Int(2))
    );
}

fn named(name: &str, value: BindingValue) -> Binding {
    Binding { name: name.to_string(), value }
}

#[test]
fn names_are_looked_up_first_entry_first() {
    let map = vec![named("a", scalar(1.)), named("b", BindingValue::Int(2)), named("a", scalar(3.))];
    assert_eq!(look_up(&map, "a"), Some(scalar(1.)));
    assert_eq!(look_up(&map, "b"), Some(BindingValue::Int(2)));
    assert_eq!(look_up(&map, "c"), None);
    assert_eq!(look_up(&vec![], "a"), None);
}

#[test]
fn values_are_bound_by_name() {
    let mut code = compile("@b - @a * @c");
    assert_eq!(code.binding_names(), vec!["b", "a", "c"]);
    let map = vec![named("a", scalar(2.)), named("b", scalar(10.)), named("z", scalar(0.))];
    // of the names that the list knows, in the order of the expression
    assert_eq!(code.binding_map_to_values(&map), vec![scalar(10.), scalar(2.)]);
    code.set_bindings_from_map(&map);
    assert_eq!(code.clone_binding_values(), vec![scalar(10.), scalar(2.), BindingValue::Unknown]);
    assert_eq!(
        evaluate_expression_precompiled_with_bindings(
            &code,
            &code.clone_binding_values(),
            &binary64
        ),
        Err(EvaluationError { reason: EvaluationFailure::UnsetBinding })
    );
    let map = vec![named("c", scalar(4.)), named("a", scalar(2.)), named("b", scalar(10.))];
    assert_eq!(evaluate_expression_precompiled(&code, &map, &binary64), Ok(scalar(2.)));
}

#[test]
fn an_expression_is_worked_out_from_its_text() {
    let map = vec![named("foo", scalar(1.5))];
    let line = "@foo+100.29";
    assert_eq!(
        evaluate_expression(line, &readings_of(line), &map, &binary64),
        Ok(scalar(1.5 + 100.29))
    );
    let line = "@foo+";
    assert_eq!(
        evaluate_expression(line, &readings_of(line), &map, &binary64),
        Err(ExpressionError::CompilationError(CompilationError {
            reason: compile_failure(line)
        }))
    );
    let line = "@bar+1";
    assert_eq!(
        evaluate_expression(line, &readings_of(line), &map, &binary64),
        Err(ExpressionError::EvaluationError(EvaluationError {
            reason: EvaluationFailure::MissingBinding
        }))
    );
}

fn compile_failure(line: &str) -> CompileFailure {
    match precompile_expression(line, &readings_of(line)) {
        Err(e) => e.reason,
        Ok(_) => panic!("compiles"),
    }
}
