//! Working expressions out.
//!
//! The arithmetic of real numbers is not done here: the caller hands in
//! a function that does it. Everything else is: the order of the
//! operations, the arithmetic of integers, the making and taking apart
//! of vectors, and what is an error.

use vstd::prelude::*;
use crate::expressions::expressions::{
    postfix_checked, postfix_of, precompile_expression, tokenized, Binding, BindingValue,
    CompileFailure, ExpressionError, PrecompiledCode, Token,
};
use crate::geo_format::readings_of;
use crate::houdini_geo_schema::same_text;
use crate::expressions::vec_types::Vector;
use crate::geo_struct::Real64;
use crate::ieee::{from_int, int_to_double};

verus! {

/// An operation on two real numbers.
#[derive(Clone, Copy, Debug, PartialEq, Eq, Structural)]
pub enum Operation {
    Add,
    Subtract,
    Multiply,
    Divide,
}

/// Why an expression did not work out.
#[derive(Clone, Copy, Debug, PartialEq, Eq, Structural)]
pub enum EvaluationFailure {
    /// A name that is bound to nothing.
    UnsetBinding,
    /// A name beyond those that values were given for.
    MissingBinding,
    /// A component was asked of something that is no vector.
    NotAVector,
    /// A component that a vector of three does not have.
    NoSuchComponent,
    /// An operation that lacks a value to work on.
    MissingOperand,
    /// A vector among the values that a vector is to be made of.
    BadOperand,
    /// A vector of another size than three.
    UnsupportedVector,
    /// A token that has no place in postfix order.
    UnexpectedToken,
    /// A result that is no 64-bit integer.
    IntegerOverflow,
    /// An integer divided by zero.
    DivisionByZero,
    /// Nothing is left at the end.
    NoValue,
}

/// The error of working an expression out.
#[derive(Clone, Copy, Debug, PartialEq, Eq, Structural)]
pub struct EvaluationError {
    pub reason: EvaluationFailure,
}

/// A value that an expression works with.
#[derive(Debug, Copy, Clone, PartialEq)]
pub enum Operand {
    Int(i64),
    Float(Real64),
    Vector(Vector<Real64, 3>),
}

/// What an operand holds.
pub enum OperandModel {
    Int(i64),
    Float(Real64),
    Vector(Seq<Real64>),
}

impl View for Operand {
    type V = OperandModel;

    open spec fn view(&self) -> OperandModel {
        match *self {
            Operand::Int(x) => OperandModel::Int(x),
            Operand::Float(x) => OperandModel::Float(x),
            Operand::Vector(v) => OperandModel::Vector(v.data@),
        }
    }
}

/// What a stack of operands holds, the last on top.
pub open spec fn stack_view(stack: Seq<Operand>) -> Seq<OperandModel> {
    Seq::new(stack.len(), |i: int| stack[i]@)
}

/// What was asked of the caller's arithmetic: the operation and the two
/// numbers.
pub struct Question {
    pub operation: Operation,
    pub left: Real64,
    pub right: Real64,
}

/// The operand that a value bound to a name stands for.
pub open spec fn bound_operand(b: BindingValue) -> Option<OperandModel> {
    match b {
        BindingValue::Int(x) => Some(OperandModel::Int(x)),
        BindingValue::Float(x) => Some(OperandModel::Float(x)),
        BindingValue::Vector3(v) => Some(OperandModel::Vector(v.data@)),
        BindingValue::Unknown => None,
    }
}

/// A real number with its sign turned.
pub open spec fn negated(x: Real64) -> Real64 {
    Real64 {
        bits: if x.bits >= 0x8000_0000_0000_0000 {
            (x.bits - 0x8000_0000_0000_0000) as u64
        } else {
            (x.bits + 0x8000_0000_0000_0000) as u64
        },
    }
}

/// An integer as the real number nearest to it.
pub open spec fn real_of(x: i64) -> Real64 {
    Real64 { bits: int_to_double(x as int) as u64 }
}

/// Component `k` of an operand in arithmetic with reals: an integer
/// counts as the real nearest to it, and a scalar for each component of
/// a vector.
pub open spec fn component(o: OperandModel, k: int) -> Real64 {
    match o {
        OperandModel::Int(x) => real_of(x),
        OperandModel::Float(x) => x,
        OperandModel::Vector(v) => v[k],
    }
}

/// The quotient of two integers, cut off toward zero.
pub open spec fn toward_zero(x: int, y: int) -> int {
    if x == 0 {
        0
    } else if x > 0 && y > 0 {
        x / y
    } else if x < 0 && y > 0 {
        -((-x) / y)
    } else if x > 0 && y < 0 {
        -(x / (-y))
    } else {
        (-x) / (-y)
    }
}

/// What an operation on two integers gives: an integer, unless the
/// divisor is zero or the result is no 64-bit integer.
pub open spec fn whole_result(op: Operation, x: i64, y: i64) -> Result<i64, EvaluationFailure> {
    match op {
        Operation::Add => if i64::MIN <= x + y <= i64::MAX {
            Ok((x + y) as i64)
        } else {
            Err(EvaluationFailure::IntegerOverflow)
        },
        Operation::Subtract => if i64::MIN <= x - y <= i64::MAX {
            Ok((x - y) as i64)
        } else {
            Err(EvaluationFailure::IntegerOverflow)
        },
        Operation::Multiply => if i64::MIN <= x * y <= i64::MAX {
            Ok((x * y) as i64)
        } else {
            Err(EvaluationFailure::IntegerOverflow)
        },
        Operation::Divide => if y == 0 {
            Err(EvaluationFailure::DivisionByZero)
        } else if i64::MIN <= toward_zero(x as int, y as int) <= i64::MAX {
            Ok(toward_zero(x as int, y as int) as i64)
        } else {
            Err(EvaluationFailure::IntegerOverflow)
        },
    }
}

/// The operation that a token stands for.
pub open spec fn operation_of(t: Token) -> Option<Operation> {
    match t {
        Token::BinaryPlus => Some(Operation::Add),
        Token::BinaryMinus => Some(Operation::Subtract),
        Token::Multiply => Some(Operation::Multiply),
        Token::Divide => Some(Operation::Divide),
        _ => None,
    }
}

/// The question for component `k` of an operation on two operands.
pub open spec fn question(op: Operation, left: OperandModel, right: OperandModel, k: int) -> Question {
    Question { operation: op, left: component(left, k), right: component(right, k) }
}

/// What an operation asks of the caller's arithmetic, with the values
/// `stack` before it: nothing where both of the two top values are
/// integers; once for each of the three components where one of the two
/// is a vector; else once.
pub open spec fn asked(stack: Seq<OperandModel>, op: Operation) -> Seq<Question> {
    if stack.len() >= 2 {
        let right = stack[stack.len() - 1];
        let left = stack[stack.len() - 2];
        if left is Int && right is Int {
            Seq::empty()
        } else if left is Vector || right is Vector {
            seq![
                question(op, left, right, 0),
                question(op, left, right, 1),
                question(op, left, right, 2),
            ]
        } else {
            seq![question(op, left, right, 0)]
        }
    } else {
        Seq::empty()
    }
}

/// What a token asks of the caller's arithmetic, with the values
/// `stack` before it. Only an operation on two values asks anything.
pub open spec fn questions(stack: Seq<OperandModel>, token: Token) -> Seq<Question> {
    match operation_of(token) {
        Some(op) => asked(stack, op),
        None => Seq::empty(),
    }
}

/// The stack after an operation on its two top values, where the
/// caller's arithmetic said `said`. Two integers give an integer. Two
/// scalars of which one is real give a real. Where one of the two is a
/// vector the result is a vector.
pub open spec fn binary(stack: Seq<OperandModel>, op: Operation, said: Seq<Real64>) -> Result<
    Seq<OperandModel>,
    EvaluationFailure,
> {
    if stack.len() < 2 {
        Err(EvaluationFailure::MissingOperand)
    } else {
        let right = stack[stack.len() - 1];
        let left = stack[stack.len() - 2];
        let rest = stack.take(stack.len() - 2);
        match (left, right) {
            (OperandModel::Int(x), OperandModel::Int(y)) => match whole_result(op, x, y) {
                Ok(z) => Ok(rest.push(OperandModel::Int(z))),
                Err(e) => Err(e),
            },
            _ => if left is Vector || right is Vector {
                Ok(rest.push(OperandModel::Vector(seq![said[0], said[1], said[2]])))
            } else {
                Ok(rest.push(OperandModel::Float(said[0])))
            },
        }
    }
}

/// The stack after a vector was made of its three top values, which
/// must be scalars.
pub open spec fn vector_made(stack: Seq<OperandModel>) -> Result<
    Seq<OperandModel>,
    EvaluationFailure,
> {
    if stack.len() < 1 {
        Err(EvaluationFailure::MissingOperand)
    } else if stack[stack.len() - 1] is Vector {
        Err(EvaluationFailure::BadOperand)
    } else if stack.len() < 2 {
        Err(EvaluationFailure::MissingOperand)
    } else if stack[stack.len() - 2] is Vector {
        Err(EvaluationFailure::BadOperand)
    } else if stack.len() < 3 {
        Err(EvaluationFailure::MissingOperand)
    } else if stack[stack.len() - 3] is Vector {
        Err(EvaluationFailure::BadOperand)
    } else {
        Ok(
            stack.take(stack.len() - 3).push(
                OperandModel::Vector(
                    seq![
                        component(stack[stack.len() - 3], 0),
                        component(stack[stack.len() - 2], 0),
                        component(stack[stack.len() - 1], 0),
                    ],
                ),
            ),
        )
    }
}

/// The stack after the sign of its top value was turned.
pub open spec fn sign_turned(stack: Seq<OperandModel>) -> Result<
    Seq<OperandModel>,
    EvaluationFailure,
> {
    if stack.len() < 1 {
        Err(EvaluationFailure::MissingOperand)
    } else {
        match stack.last() {
            OperandModel::Int(x) => if x == i64::MIN {
                Err(EvaluationFailure::IntegerOverflow)
            } else {
                Ok(stack.drop_last().push(OperandModel::Int((-x) as i64)))
            },
            OperandModel::Float(x) => Ok(stack.drop_last().push(OperandModel::Float(negated(x)))),
            OperandModel::Vector(v) => Ok(
                stack.drop_last().push(
                    OperandModel::Vector(seq![negated(v[0]), negated(v[1]), negated(v[2])]),
                ),
            ),
        }
    }
}

/// The stack after a token, where the caller's arithmetic said `said`
/// to what the token asked.
pub open spec fn after_token(
    stack: Seq<OperandModel>,
    token: Token,
    bindings: Seq<BindingValue>,
    said: Seq<Real64>,
) -> Result<Seq<OperandModel>, EvaluationFailure> {
    match token {
        Token::IntValue(x) => Ok(stack.push(OperandModel::Int(x))),
        Token::FloatValue(x) => Ok(stack.push(OperandModel::Float(x))),
        Token::Binding(b) => if b >= bindings.len() {
            Err(EvaluationFailure::MissingBinding)
        } else {
            match bound_operand(bindings[b as int]) {
                Some(o) => Ok(stack.push(o)),
                None => Err(EvaluationFailure::UnsetBinding),
            }
        },
        Token::VecIndex(i) => if stack.len() < 1 {
            Err(EvaluationFailure::MissingOperand)
        } else {
            match stack.last() {
                OperandModel::Vector(v) => if i < 3 {
                    Ok(stack.drop_last().push(OperandModel::Float(v[i as int])))
                } else {
                    Err(EvaluationFailure::NoSuchComponent)
                },
                _ => Err(EvaluationFailure::NotAVector),
            }
        },
        Token::UnaryPlus => if stack.len() < 1 {
            Err(EvaluationFailure::MissingOperand)
        } else {
            Ok(stack)
        },
        Token::UnaryMinus => sign_turned(stack),
        Token::BinaryPlus | Token::BinaryMinus | Token::Multiply | Token::Divide => binary(
            stack,
            operation_of(token)->0,
            said,
        ),
        Token::MakeVec(n) => if n != 3 {
            Err(EvaluationFailure::UnsupportedVector)
        } else {
            vector_made(stack)
        },
        _ => Err(EvaluationFailure::UnexpectedToken),
    }
}

/// The stack after the first `upto` tokens, where `answers[i]` is what
/// the caller's arithmetic said to what token `i` asked.
pub open spec fn after_tokens(
    postfix: Seq<Token>,
    upto: int,
    bindings: Seq<BindingValue>,
    answers: Seq<Seq<Real64>>,
) -> Result<Seq<OperandModel>, EvaluationFailure>
    decreases upto,
{
    if upto <= 0 {
        Ok(Seq::empty())
    } else {
        match after_tokens(postfix, upto - 1, bindings, answers) {
            Err(e) => Err(e),
            Ok(stack) => after_token(stack, postfix[upto - 1], bindings, answers[upto - 1]),
        }
    }
}

/// What an expression works out to: the value that is on top of the
/// stack after its last token.
pub open spec fn evaluated(
    postfix: Seq<Token>,
    bindings: Seq<BindingValue>,
    answers: Seq<Seq<Real64>>,
) -> Result<OperandModel, EvaluationFailure> {
    match after_tokens(postfix, postfix.len() as int, bindings, answers) {
        Err(e) => Err(e),
        Ok(stack) => if stack.len() < 1 {
            Err(EvaluationFailure::NoValue)
        } else {
            Ok(stack.last())
        },
    }
}

/// `said` is what `arithmetic` gives for the questions `asked`, one for
/// one.
pub open spec fn fits<F: Fn(Operation, Real64, Real64) -> Real64>(
    arithmetic: F,
    asked: Seq<Question>,
    said: Seq<Real64>,
) -> bool {
    &&& said.len() == asked.len()
    &&& forall|k: int|
        0 <= k < asked.len() ==> call_ensures(
            arithmetic,
            (asked[k].operation, asked[k].left, asked[k].right),
            #[trigger] said[k],
        )
}

/// `answers[at]` is what `arithmetic` gives for what token `at` asks; a
/// token that is not reached asks nothing.
pub open spec fn answered_at<F: Fn(Operation, Real64, Real64) -> Real64>(
    arithmetic: F,
    postfix: Seq<Token>,
    bindings: Seq<BindingValue>,
    answers: Seq<Seq<Real64>>,
    at: int,
) -> bool {
    match after_tokens(postfix, at, bindings, answers) {
        Ok(stack) => fits(arithmetic, questions(stack, postfix[at]), answers[at]),
        Err(_) => answers[at].len() == 0,
    }
}

/// `answers` is what `arithmetic` gives while the expression is worked
/// out: for each token, to what it asks.
pub open spec fn answered<F: Fn(Operation, Real64, Real64) -> Real64>(
    arithmetic: F,
    postfix: Seq<Token>,
    bindings: Seq<BindingValue>,
    answers: Seq<Seq<Real64>>,
) -> bool {
    &&& answers.len() == postfix.len()
    &&& forall|at: int|
        0 <= at < postfix.len() ==> #[trigger] answered_at(
            arithmetic,
            postfix,
            bindings,
            answers,
            at,
        )
}

/// The stack after some tokens depends on the answers to those tokens
/// only.
pub proof fn lemma_answers_so_far(
    postfix: Seq<Token>,
    upto: int,
    bindings: Seq<BindingValue>,
    a: Seq<Seq<Real64>>,
    b: Seq<Seq<Real64>>,
)
    requires
        forall|k: int| 0 <= k < upto ==> a[k] == b[k],
    ensures
        after_tokens(postfix, upto, bindings, a) == after_tokens(postfix, upto, bindings, b),
    decreases upto,
{
    if upto > 0 {
        lemma_answers_so_far(postfix, upto - 1, bindings, a, b);
    }
}

/// Once a token has failed, the failure stays.
pub proof fn lemma_failure_stays(
    postfix: Seq<Token>,
    at: int,
    upto: int,
    bindings: Seq<BindingValue>,
    answers: Seq<Seq<Real64>>,
)
    requires
        at <= upto,
        after_tokens(postfix, at, bindings, answers) is Err,
    ensures
        after_tokens(postfix, upto, bindings, answers) == after_tokens(
            postfix,
            at,
            bindings,
            answers,
        ),
    decreases upto - at,
{
    if at < upto {
        lemma_failure_stays(postfix, at, upto - 1, bindings, answers);
    }
}

/// The arithmetic gives one answer to each question.
pub open spec fn deterministic<F: Fn(Operation, Real64, Real64) -> Real64>(arithmetic: F) -> bool {
    forall|o: Operation, a: Real64, b: Real64, x: Real64, y: Real64|
        #[trigger] call_ensures(arithmetic, (o, a, b), x) && #[trigger] call_ensures(
            arithmetic,
            (o, a, b),
            y,
        ) ==> x == y
}

/// Two lists of values stand for the same operands, one for one.
pub open spec fn same_bindings(a: Seq<BindingValue>, b: Seq<BindingValue>) -> bool {
    &&& a.len() == b.len()
    &&& forall|i: int| 0 <= i < a.len() ==> bound_operand(#[trigger] a[i]) == bound_operand(b[i])
}

/// With arithmetic that gives one answer to each question, the stack
/// after any number of tokens is the same whatever answers were
/// recorded, and whichever of two lists of values that stand for the
/// same operands was bound.
pub proof fn lemma_stack_determined<F: Fn(Operation, Real64, Real64) -> Real64>(
    arithmetic: F,
    postfix: Seq<Token>,
    upto: int,
    b1: Seq<BindingValue>,
    b2: Seq<BindingValue>,
    a1: Seq<Seq<Real64>>,
    a2: Seq<Seq<Real64>>,
)
    requires
        deterministic(arithmetic),
        same_bindings(b1, b2),
        answered(arithmetic, postfix, b1, a1),
        answered(arithmetic, postfix, b2, a2),
        0 <= upto <= postfix.len(),
    ensures
        after_tokens(postfix, upto, b1, a1) == after_tokens(postfix, upto, b2, a2),
    decreases upto,
{
    if upto > 0 {
        lemma_stack_determined(arithmetic, postfix, upto - 1, b1, b2, a1, a2);
        let at = upto - 1;
        match after_tokens(postfix, at, b1, a1) {
            Err(_) => {},
            Ok(stack) => {
                let token = postfix[at];
                let asked = questions(stack, token);
                assert(answered_at(arithmetic, postfix, b1, a1, at));
                assert(answered_at(arithmetic, postfix, b2, a2, at));
                assert(fits(arithmetic, asked, a1[at]));
                assert(fits(arithmetic, asked, a2[at]));
                assert forall|k: int| 0 <= k < asked.len() implies a1[at][k] == a2[at][k] by {
                    assert(call_ensures(
                        arithmetic,
                        (asked[k].operation, asked[k].left, asked[k].right),
                        a1[at][k],
                    ));
                    assert(call_ensures(
                        arithmetic,
                        (asked[k].operation, asked[k].left, asked[k].right),
                        a2[at][k],
                    ));
                }
                assert(a1[at] =~= a2[at]);
                match token {
                    Token::Binding(b) => {
                        if b < b1.len() {
                            assert(bound_operand(b1[b as int]) == bound_operand(b2[b as int]));
                        }
                    },
                    _ => {},
                }
            },
        }
    }
}

/// With arithmetic that gives one answer to each question, an
/// expression works out to one result.
pub proof fn lemma_evaluation_determined<F: Fn(Operation, Real64, Real64) -> Real64>(
    arithmetic: F,
    postfix: Seq<Token>,
    b1: Seq<BindingValue>,
    b2: Seq<BindingValue>,
    a1: Seq<Seq<Real64>>,
    a2: Seq<Seq<Real64>>,
)
    requires
        deterministic(arithmetic),
        same_bindings(b1, b2),
        answered(arithmetic, postfix, b1, a1),
        answered(arithmetic, postfix, b2, a2),
    ensures
        evaluated(postfix, b1, a1) == evaluated(postfix, b2, a2),
{
    lemma_stack_determined(arithmetic, postfix, postfix.len() as int, b1, b2, a1, a2);
}

/// Turns the sign of a real number.
pub fn negate(x: Real64) -> (r: Real64)
    ensures
        r == negated(x),
{
    if x.bits >= 0x8000_0000_0000_0000 {
        Real64 { bits: x.bits - 0x8000_0000_0000_0000 }
    } else {
        Real64 { bits: x.bits + 0x8000_0000_0000_0000 }
    }
}

/// Works an operation on two integers out.
pub fn whole_operation(op: Operation, x: i64, y: i64) -> (r: Result<i64, EvaluationError>)
    ensures
        match whole_result(op, x, y) {
            Ok(z) => r == Ok::<i64, EvaluationError>(z),
            Err(e) => r is Err && r->Err_0.reason == e,
        },
{
    let z: Option<i64> = match op {
        Operation::Add => x.checked_add(y),
        Operation::Subtract => x.checked_sub(y),
        Operation::Multiply => x.checked_mul(y),
        Operation::Divide => {
            if y == 0 {
                return Err(EvaluationError { reason: EvaluationFailure::DivisionByZero });
            }
            x.checked_div(y)
        },
    };
    match z {
        Some(z) => Ok(z),
        None => Err(EvaluationError { reason: EvaluationFailure::IntegerOverflow }),
    }
}

/// Component `k` of an operand in arithmetic with reals.
fn part(o: &Operand, k: usize) -> (r: Real64)
    requires
        k < 3,
    ensures
        r == component(o@, k as int),
{
    match o {
        Operand::Int(x) => from_int(*x),
        Operand::Float(x) => *x,
        Operand::Vector(v) => v.component(k),
    }
}

fn is_vector(o: &Operand) -> (r: bool)
    ensures
        r == (o@ is Vector),
{
    match o {
        Operand::Vector(_) => true,
        _ => false,
    }
}

/// Replaces the `count` top values of the stack by `value`.
fn replace_top(stack: &mut Vec<Operand>, count: usize, value: Operand)
    requires
        count <= old(stack)@.len(),
    ensures
        stack_view(final(stack)@) == stack_view(old(stack)@).take(
            old(stack)@.len() - count,
        ).push(value@),
{
    let mut left: usize = count;
    while left > 0
        invariant
            left <= count <= old(stack)@.len(),
            stack@.len() == old(stack)@.len() - (count - left),
            stack@ == old(stack)@.take(stack@.len() as int),
        decreases left,
    {
        stack.pop();
        left = left - 1;
    }
    stack.push(value);
    assert(stack_view(stack@) =~= stack_view(old(stack)@).take(old(stack)@.len() - count).push(
        value@,
    ));
}

/// Works an operation on the two top values of the stack out, and
/// tells what the arithmetic said.
fn operate<F: Fn(Operation, Real64, Real64) -> Real64>(
    stack: &mut Vec<Operand>,
    op: Operation,
    arithmetic: &F,
) -> (r: Result<Ghost<Seq<Real64>>, EvaluationError>)
    requires
        forall|o: Operation, a: Real64, b: Real64| call_requires(*arithmetic, (o, a, b)),
    ensures
        match r {
            Ok(said) => fits(*arithmetic, asked(stack_view(old(stack)@), op), said@) && binary(
                stack_view(old(stack)@),
                op,
                said@,
            ) == Ok::<Seq<OperandModel>, EvaluationFailure>(stack_view(final(stack)@)),
            Err(e) => asked(stack_view(old(stack)@), op).len() == 0 && binary(
                stack_view(old(stack)@),
                op,
                Seq::empty(),
            ) == Err::<Seq<OperandModel>, EvaluationFailure>(e.reason),
        },
{
    if stack.len() < 2 {
        return Err(EvaluationError { reason: EvaluationFailure::MissingOperand });
    }
    let right: Operand = stack[stack.len() - 1];
    let left: Operand = stack[stack.len() - 2];
    match (left, right) {
        (Operand::Int(x), Operand::Int(y)) => match whole_operation(op, x, y) {
            Ok(z) => {
                replace_top(stack, 2, Operand::Int(z));
                Ok(Ghost(Seq::empty()))
            },
            Err(e) => Err(e),
        },
        _ => {
            if is_vector(&left) || is_vector(&right) {
                let a: Real64 = arithmetic(op, part(&left, 0), part(&right, 0));
                let b: Real64 = arithmetic(op, part(&left, 1), part(&right, 1));
                let c: Real64 = arithmetic(op, part(&left, 2), part(&right, 2));
                replace_top(stack, 2, Operand::Vector(Vector::new(a, b, c)));
                let ghost said = seq![a, b, c];
                Ok(Ghost(said))
            } else {
                let a: Real64 = arithmetic(op, part(&left, 0), part(&right, 0));
                replace_top(stack, 2, Operand::Float(a));
                let ghost said = seq![a];
                Ok(Ghost(said))
            }
        },
    }
}

/// Makes a vector of the three top values of the stack.
fn make_vector(stack: &mut Vec<Operand>) -> (r: Result<(), EvaluationError>)
    ensures
        match r {
            Ok(_) => vector_made(stack_view(old(stack)@)) == Ok::<
                Seq<OperandModel>,
                EvaluationFailure,
            >(stack_view(final(stack)@)),
            Err(e) => vector_made(stack_view(old(stack)@)) == Err::<
                Seq<OperandModel>,
                EvaluationFailure,
            >(e.reason),
        },
{
    let n: usize = stack.len();
    if n < 1 {
        return Err(EvaluationError { reason: EvaluationFailure::MissingOperand });
    }
    let third: Operand = stack[n - 1];
    if is_vector(&third) {
        return Err(EvaluationError { reason: EvaluationFailure::BadOperand });
    }
    if n < 2 {
        return Err(EvaluationError { reason: EvaluationFailure::MissingOperand });
    }
    let second: Operand = stack[n - 2];
    if is_vector(&second) {
        return Err(EvaluationError { reason: EvaluationFailure::BadOperand });
    }
    if n < 3 {
        return Err(EvaluationError { reason: EvaluationFailure::MissingOperand });
    }
    let first: Operand = stack[n - 3];
    if is_vector(&first) {
        return Err(EvaluationError { reason: EvaluationFailure::BadOperand });
    }
    let v = Vector::new(part(&first, 0), part(&second, 0), part(&third, 0));
    replace_top(stack, 3, Operand::Vector(v));
    Ok(())
}

/// Turns the sign of the top value of the stack.
fn turn_sign(stack: &mut Vec<Operand>) -> (r: Result<(), EvaluationError>)
    ensures
        match r {
            Ok(_) => sign_turned(stack_view(old(stack)@)) == Ok::<
                Seq<OperandModel>,
                EvaluationFailure,
            >(stack_view(final(stack)@)),
            Err(e) => sign_turned(stack_view(old(stack)@)) == Err::<
                Seq<OperandModel>,
                EvaluationFailure,
            >(e.reason),
        },
{
    let n: usize = stack.len();
    if n < 1 {
        return Err(EvaluationError { reason: EvaluationFailure::MissingOperand });
    }
    let top: Operand = stack[n - 1];
    let turned: Operand = match top {
        Operand::Int(x) => {
            if x == i64::MIN {
                return Err(EvaluationError { reason: EvaluationFailure::IntegerOverflow });
            }
            Operand::Int(-x)
        },
        Operand::Float(x) => Operand::Float(negate(x)),
        Operand::Vector(v) => Operand::Vector(
            Vector::new(negate(v.component(0)), negate(v.component(1)), negate(v.component(2))),
        ),
    };
    replace_top(stack, 1, turned);
    assert(stack_view(old(stack)@).take(n - 1) =~= stack_view(old(stack)@).drop_last());
    Ok(())
}

/// The operand that a value bound to a name stands for.
fn operand_bound(b: BindingValue) -> (r: Option<Operand>)
    ensures
        match r {
            Some(o) => bound_operand(b) == Some(o@),
            None => bound_operand(b) is None,
        },
{
    match b {
        BindingValue::Int(x) => Some(Operand::Int(x)),
        BindingValue::Float(x) => Some(Operand::Float(x)),
        BindingValue::Vector3(v) => Some(Operand::Vector(v)),
        BindingValue::Unknown => None,
    }
}

/// Puts a value on the stack.
fn put(stack: &mut Vec<Operand>, value: Operand)
    ensures
        stack_view(final(stack)@) == stack_view(old(stack)@).push(value@),
{
    stack.push(value);
    assert(stack_view(stack@) =~= stack_view(old(stack)@).push(value@));
}

/// Takes one token: changes the stack as the token says, and tells what
/// the arithmetic said to what the token asked.
fn take_token<F: Fn(Operation, Real64, Real64) -> Real64>(
    stack: &mut Vec<Operand>,
    token: Token,
    bindings: &Vec<BindingValue>,
    arithmetic: &F,
) -> (r: Result<Ghost<Seq<Real64>>, EvaluationError>)
    requires
        forall|o: Operation, a: Real64, b: Real64| call_requires(*arithmetic, (o, a, b)),
    ensures
        match r {
            Ok(said) => fits(*arithmetic, questions(stack_view(old(stack)@), token), said@)
                && after_token(stack_view(old(stack)@), token, bindings@, said@) == Ok::<
                Seq<OperandModel>,
                EvaluationFailure,
            >(stack_view(final(stack)@)),
            Err(e) => questions(stack_view(old(stack)@), token).len() == 0 && after_token(
                stack_view(old(stack)@),
                token,
                bindings@,
                Seq::empty(),
            ) == Err::<Seq<OperandModel>, EvaluationFailure>(e.reason),
        },
{
    let ghost nothing: Seq<Real64> = Seq::empty();
    match token {
        Token::IntValue(x) => {
            put(stack, Operand::Int(x));
            Ok(Ghost(nothing))
        },
        Token::FloatValue(x) => {
            put(stack, Operand::Float(x));
            Ok(Ghost(nothing))
        },
        Token::Binding(b) => {
            if b >= bindings.len() {
                return Err(EvaluationError { reason: EvaluationFailure::MissingBinding });
            }
            match operand_bound(bindings[b]) {
                Some(o) => {
                    put(stack, o);
                    Ok(Ghost(nothing))
                },
                None => Err(EvaluationError { reason: EvaluationFailure::UnsetBinding }),
            }
        },
        Token::VecIndex(i) => {
            let n: usize = stack.len();
            if n < 1 {
                return Err(EvaluationError { reason: EvaluationFailure::MissingOperand });
            }
            let top: Operand = stack[n - 1];
            match top {
                Operand::Vector(v) => {
                    if i < 3 {
                        replace_top(stack, 1, Operand::Float(v.component(i)));
                        assert(stack_view(old(stack)@).take(n - 1) =~= stack_view(
                            old(stack)@,
                        ).drop_last());
                        Ok(Ghost(nothing))
                    } else {
                        Err(EvaluationError { reason: EvaluationFailure::NoSuchComponent })
                    }
                },
                _ => Err(EvaluationError { reason: EvaluationFailure::NotAVector }),
            }
        },
        Token::UnaryPlus => {
            if stack.len() < 1 {
                Err(EvaluationError { reason: EvaluationFailure::MissingOperand })
            } else {
                Ok(Ghost(nothing))
            }
        },
        Token::UnaryMinus => match turn_sign(stack) {
            Ok(_) => Ok(Ghost(nothing)),
            Err(e) => Err(e),
        },
        Token::BinaryPlus => operate(stack, Operation::Add, arithmetic),
        Token::BinaryMinus => operate(stack, Operation::Subtract, arithmetic),
        Token::Multiply => operate(stack, Operation::Multiply, arithmetic),
        Token::Divide => operate(stack, Operation::Divide, arithmetic),
        Token::MakeVec(n) => {
            if n != 3 {
                return Err(EvaluationError { reason: EvaluationFailure::UnsupportedVector });
            }
            match make_vector(stack) {
                Ok(_) => Ok(Ghost(nothing)),
                Err(e) => Err(e),
            }
        },
        _ => Err(EvaluationError { reason: EvaluationFailure::UnexpectedToken }),
    }
}

/// The value bound to a name that an operand stands for.
fn value_of(o: Operand) -> (r: BindingValue)
    ensures
        bound_operand(r) == Some(o@),
{
    match o {
        Operand::Int(x) => BindingValue::Int(x),
        Operand::Float(x) => BindingValue::Float(x),
        Operand::Vector(v) => BindingValue::Vector3(v),
    }
}

/// Whether `r` is what `evaluated` says.
pub open spec fn gives(
    r: Result<BindingValue, EvaluationError>,
    outcome: Result<OperandModel, EvaluationFailure>,
) -> bool {
    match outcome {
        Ok(o) => r is Ok && bound_operand(r->Ok_0) == Some(o),
        Err(e) => r is Err && r->Err_0.reason == e,
    }
}

/// Works out an expression in postfix order, with the values `bindings`
/// for its names. Real numbers are added, subtracted, multiplied and
/// divided by `arithmetic`; the result is what the expression works out
/// to with the answers that `arithmetic` gave.
pub fn evaluate_postfix<F: Fn(Operation, Real64, Real64) -> Real64>(
    postfix_sequence: &Vec<Token>,
    bindings: &Vec<BindingValue>,
    arithmetic: &F,
) -> (r: Result<BindingValue, EvaluationError>)
    requires
        forall|o: Operation, a: Real64, b: Real64| call_requires(*arithmetic, (o, a, b)),
    ensures
        exists|answers: Seq<Seq<Real64>>|
            answered(*arithmetic, postfix_sequence@, bindings@, answers) && gives(
                r,
                evaluated(postfix_sequence@, bindings@, answers),
            ),
{
    let mut stack: Vec<Operand> = Vec::new();
    let ghost mut answers: Seq<Seq<Real64>> = Seq::empty();
    let mut i: usize = 0;
    assert(stack_view(stack@) =~= Seq::empty());
    while i < postfix_sequence.len()
        invariant
            i <= postfix_sequence@.len(),
            answers.len() == i,
            forall|o: Operation, a: Real64, b: Real64| call_requires(*arithmetic, (o, a, b)),
            after_tokens(postfix_sequence@, i as int, bindings@, answers) == Ok::<
                Seq<OperandModel>,
                EvaluationFailure,
            >(stack_view(stack@)),
            forall|at: int|
                0 <= at < i ==> #[trigger] answered_at(
                    *arithmetic,
                    postfix_sequence@,
                    bindings@,
                    answers,
                    at,
                ),
        decreases postfix_sequence@.len() - i,
    {
        let ghost before = answers;
        match take_token(&mut stack, postfix_sequence[i], bindings, arithmetic) {
            Ok(said) => {
                proof {
                    answers = before.push(said@);
                    assert forall|at: int| 0 <= at <= i implies #[trigger] answered_at(
                        *arithmetic,
                        postfix_sequence@,
                        bindings@,
                        answers,
                        at,
                    ) by {
                        lemma_answers_so_far(postfix_sequence@, at, bindings@, before, answers);
                        if at < i {
                            assert(answered_at(
                                *arithmetic,
                                postfix_sequence@,
                                bindings@,
                                before,
                                at,
                            ));
                        }
                    }
                    lemma_answers_so_far(postfix_sequence@, i as int, bindings@, before, answers);
                }
            },
            Err(e) => {
                proof {
                    let whole = Seq::new(
                        postfix_sequence@.len(),
                        |k: int|
                            if k < i {
                                before[k]
                            } else {
                                Seq::<Real64>::empty()
                            },
                    );
                    lemma_answers_so_far(postfix_sequence@, i as int, bindings@, before, whole);
                    assert(after_tokens(postfix_sequence@, i + 1, bindings@, whole) == Err::<
                        Seq<OperandModel>,
                        EvaluationFailure,
                    >(e.reason));
                    lemma_failure_stays(
                        postfix_sequence@,
                        i + 1,
                        postfix_sequence@.len() as int,
                        bindings@,
                        whole,
                    );
                    assert forall|at: int|
                        0 <= at < postfix_sequence@.len() implies #[trigger] answered_at(
                        *arithmetic,
                        postfix_sequence@,
                        bindings@,
                        whole,
                        at,
                    ) by {
                        if at <= i {
                            lemma_answers_so_far(postfix_sequence@, at, bindings@, before, whole);
                            if at < i {
                                assert(answered_at(
                                    *arithmetic,
                                    postfix_sequence@,
                                    bindings@,
                                    before,
                                    at,
                                ));
                            }
                        } else {
                            lemma_failure_stays(postfix_sequence@, i + 1, at, bindings@, whole);
                        }
                    }
                    assert(answered(*arithmetic, postfix_sequence@, bindings@, whole));
                    assert(gives(
                        Err::<BindingValue, EvaluationError>(e),
                        evaluated(postfix_sequence@, bindings@, whole),
                    ));
                }
                return Err(e);
            },
        }
        i = i + 1;
    }
    let n: usize = stack.len();
    if n < 1 {
        let r = Err(EvaluationError { reason: EvaluationFailure::NoValue });
        proof {
            assert(answered(*arithmetic, postfix_sequence@, bindings@, answers));
            assert(gives(r, evaluated(postfix_sequence@, bindings@, answers)));
        }
        return r;
    }
    let r = Ok(value_of(stack[n - 1]));
    proof {
        assert(answered(*arithmetic, postfix_sequence@, bindings@, answers));
        assert(gives(r, evaluated(postfix_sequence@, bindings@, answers)));
    }
    r
}

/// Works out an expression that was made ready, with the values
/// `bindings` for its names.
pub fn evaluate_expression_precompiled_with_bindings<F: Fn(Operation, Real64, Real64) -> Real64>(
    precomp: &PrecompiledCode,
    bindings: &Vec<BindingValue>,
    arithmetic: &F,
) -> (r: Result<BindingValue, EvaluationError>)
    requires
        forall|o: Operation, a: Real64, b: Real64| call_requires(*arithmetic, (o, a, b)),
    ensures
        exists|answers: Seq<Seq<Real64>>|
            answered(*arithmetic, precomp.code(), bindings@, answers) && gives(
                r,
                evaluated(precomp.code(), bindings@, answers),
            ),
{
    evaluate_postfix(precomp.postfix(), bindings, arithmetic)
}

/// What a list of names and values gives for a name: the value of the
/// first entry of that name.
pub open spec fn looked_up(map: Seq<Binding>, name: Seq<char>) -> Option<BindingValue>
    decreases map.len(),
{
    if map.len() == 0 {
        None
    } else if map[0].name@ == name {
        Some(map[0].value)
    } else {
        looked_up(map.drop_first(), name)
    }
}

/// The values that a list of names and values gives for those of
/// `names` that it knows, in the order of `names`.
pub open spec fn known_values(names: Seq<Seq<char>>, map: Seq<Binding>) -> Seq<BindingValue>
    decreases names.len(),
{
    if names.len() == 0 {
        Seq::empty()
    } else {
        let before = known_values(names.drop_last(), map);
        match looked_up(map, names.last()) {
            Some(v) => before.push(v),
            None => before,
        }
    }
}

/// Looks a name up in a list of names and values.
pub fn look_up(map: &Vec<Binding>, name: &str) -> (r: Option<BindingValue>)
    ensures
        r == looked_up(map@, name@),
{
    let mut i: usize = 0;
    assert(map@.skip(0) =~= map@);
    while i < map.len()
        invariant
            i <= map@.len(),
            looked_up(map@, name@) == looked_up(map@.skip(i as int), name@),
        decreases map.len() - i,
    {
        assert(map@.skip(i as int).drop_first() =~= map@.skip(i + 1));
        if same_text(map[i].name.as_str(), name) {
            return Some(map[i].value);
        }
        i = i + 1;
    }
    None
}

impl PrecompiledCode {
    /// The values that `binding_map` gives for the names of the
    /// expression that it knows, in the order of the names.
    pub fn binding_map_to_values(&self, binding_map: &Vec<Binding>) -> (r: Vec<BindingValue>)
        ensures
            r@ == known_values(self.names(), binding_map@),
    {
        let names: Vec<&str> = self.binding_names();
        let ghost all: Seq<Seq<char>> = self.names();
        let mut out: Vec<BindingValue> = Vec::new();
        let mut i: usize = 0;
        assert(all.take(0) =~= Seq::empty());
        while i < names.len()
            invariant
                i <= names@.len(),
                names@.len() == all.len(),
                forall|j: int| 0 <= j < names@.len() ==> (#[trigger] names@[j])@ == all[j],
                out@ == known_values(all.take(i as int), binding_map@),
            decreases names.len() - i,
        {
            assert(all.take(i + 1).drop_last() =~= all.take(i as int));
            match look_up(binding_map, names[i]) {
                Some(v) => out.push(v),
                None => {},
            }
            i = i + 1;
        }
        assert(all.take(i as int) =~= all);
        out
    }

    /// Binds each name of the expression that `binding_map` knows to
    /// the value that it gives; the other names keep what they are
    /// bound to.
    pub fn set_bindings_from_map(&mut self, binding_map: &Vec<Binding>)
        ensures
            final(self).code() == old(self).code(),
            final(self).names() == old(self).names(),
            final(self).values().len() == old(self).values().len(),
            forall|i: int|
                0 <= i < final(self).values().len() ==> #[trigger] final(self).values()[i]
                    == (match looked_up(binding_map@, old(self).names()[i]) {
                    Some(v) => v,
                    None => old(self).values()[i],
                }),
    {
        let mut values: Vec<BindingValue> = self.clone_binding_values();
        let names: Vec<&str> = self.binding_names();
        let ghost all: Seq<Seq<char>> = self.names();
        let ghost before: Seq<BindingValue> = self.values();
        proof {
            self.lemma_as_many_values_as_names();
        }
        let mut i: usize = 0;
        while i < names.len()
            invariant
                i <= names@.len(),
                names@.len() == all.len(),
                values@.len() == all.len(),
                before.len() == all.len(),
                forall|j: int| 0 <= j < names@.len() ==> (#[trigger] names@[j])@ == all[j],
                forall|j: int|
                    0 <= j < values@.len() ==> #[trigger] values@[j] == (if j < i {
                        match looked_up(binding_map@, all[j]) {
                            Some(v) => v,
                            None => before[j],
                        }
                    } else {
                        before[j]
                    }),
            decreases names.len() - i,
        {
            match look_up(binding_map, names[i]) {
                Some(v) => {
                    values.set(i, v);
                },
                None => {},
            }
            i = i + 1;
        }
        self.set_bindings_from_vec(&values);
    }
}

/// What a line is made ready as: its tokens in postfix order, and the
/// names that it binds.
pub open spec fn compiled(line: Seq<char>, readings: crate::geo_format::Readings) -> Result<
    (Seq<Token>, Seq<Seq<char>>),
    CompileFailure,
> {
    match tokenized(line, readings) {
        Err(x) => Err(x),
        Ok(s) => match postfix_of(s.tokens) {
            Err(x) => Err(x),
            Ok(p) => match postfix_checked(p) {
                Err(x) => Err(x),
                Ok(_) => Ok((p, s.names)),
            },
        },
    }
}

/// Whether `r` is what working an expression out gave.
pub open spec fn gives_in_all(
    r: Result<BindingValue, ExpressionError>,
    outcome: Result<OperandModel, EvaluationFailure>,
) -> bool {
    match outcome {
        Ok(o) => r is Ok && bound_operand(r->Ok_0) == Some(o),
        Err(e) => r == Err::<BindingValue, ExpressionError>(
            ExpressionError::EvaluationError(EvaluationError { reason: e }),
        ),
    }
}

/// Works out an expression that was made ready, with the values that
/// `binding_value_map` gives for its names.
pub fn evaluate_expression_precompiled<F: Fn(Operation, Real64, Real64) -> Real64>(
    precomp: &PrecompiledCode,
    binding_value_map: &Vec<Binding>,
    arithmetic: &F,
) -> (r: Result<BindingValue, EvaluationError>)
    requires
        forall|o: Operation, a: Real64, b: Real64| call_requires(*arithmetic, (o, a, b)),
    ensures
        exists|answers: Seq<Seq<Real64>>|
            answered(
                *arithmetic,
                precomp.code(),
                known_values(precomp.names(), binding_value_map@),
                answers,
            ) && gives(
                r,
                evaluated(
                    precomp.code(),
                    known_values(precomp.names(), binding_value_map@),
                    answers,
                ),
            ),
{
    let bindings: Vec<BindingValue> = precomp.binding_map_to_values(binding_value_map);
    evaluate_postfix(precomp.postfix(), &bindings, arithmetic)
}

/// Makes an expression ready and works it out, with the values that
/// `binding_value_map` gives for its names. `reals` tells what each
/// real number of the expression reads as, in the order in which they
/// stand.
pub fn evaluate_expression<F: Fn(Operation, Real64, Real64) -> Real64>(
    expression: &str,
    reals: &Vec<Option<Real64>>,
    binding_value_map: &Vec<Binding>,
    arithmetic: &F,
) -> (r: Result<BindingValue, ExpressionError>)
    requires
        forall|o: Operation, a: Real64, b: Real64| call_requires(*arithmetic, (o, a, b)),
    ensures
        match compiled(expression@, readings_of(reals@)) {
            Err(x) => r == Err::<BindingValue, ExpressionError>(
                ExpressionError::CompilationError(
                    crate::expressions::expressions::CompilationError { reason: x },
                ),
            ),
            Ok(c) => exists|answers: Seq<Seq<Real64>>|
                answered(*arithmetic, c.0, known_values(c.1, binding_value_map@), answers)
                    && gives_in_all(
                    r,
                    evaluated(c.0, known_values(c.1, binding_value_map@), answers),
                ),
        },
{
    let precomp: PrecompiledCode = match precompile_expression(expression, reals) {
        Ok(x) => x,
        Err(e) => {
            assert(compiled(expression@, readings_of(reals@)) == Err::<
                (Seq<Token>, Seq<Seq<char>>),
                CompileFailure,
            >(e.reason));
            assert(e == crate::expressions::expressions::CompilationError { reason: e.reason });
            return Err(ExpressionError::CompilationError(e));
        },
    };
    let found = evaluate_expression_precompiled(&precomp, binding_value_map, arithmetic);
    let r = match found {
        Ok(x) => Ok(x),
        Err(e) => Err(ExpressionError::EvaluationError(e)),
    };
    proof {
        let values = known_values(precomp.names(), binding_value_map@);
        let answers = choose|answers: Seq<Seq<Real64>>|
            answered(*arithmetic, precomp.code(), values, answers) && gives(
                found,
                evaluated(precomp.code(), values, answers),
            );
        assert(compiled(expression@, readings_of(reals@)) == Ok::<
            (Seq<Token>, Seq<Seq<char>>),
            CompileFailure,
        >((precomp.code(), precomp.names())));
        assert(gives_in_all(r, evaluated(precomp.code(), values, answers)));
        assert(answered(*arithmetic, precomp.code(), values, answers));
        let c = compiled(expression@, readings_of(reals@))->Ok_0;
        assert(c.0 == precomp.code());
        assert(c.1 == precomp.names());
        assert(answered(*arithmetic, c.0, known_values(c.1, binding_value_map@), answers));
        assert(gives_in_all(r, evaluated(c.0, known_values(c.1, binding_value_map@), answers)));
    }
    r
}

} // verus!
