//! Expressions: from text to tokens, and from tokens to postfix order.
//!
//! To turn the decimal digits of a real number into a binary64 number is
//! not done here: the caller hands in what each such number of an
//! expression reads as, in the order in which they stand.

use vstd::prelude::*;
use vstd::string::StrSliceExecFns;
use crate::expressions::evaluation::EvaluationError;
use crate::expressions::vec_types::Vector;
use crate::geo_attributes::strings_view;
use crate::geo_format::{any_reading, readings_for, readings_of, Readings};
use crate::geo_struct::Real64;

verus! {

/// A token of an expression.
#[derive(Debug, Copy, Clone, PartialEq)]
pub enum Token {
    /// The binding of the given number, counted from 0 as the names are
    /// met.
    Binding(usize),
    IntValue(i64),
    FloatValue(Real64),
    BracketOpen,
    BracketClose,
    Comma,
    CurlyOpen,
    CurlyClose,
    BinaryPlus,
    UnaryPlus,
    BinaryMinus,
    UnaryMinus,
    Multiply,
    Divide,
    VectorValue(Vector<Real64, 3>),
    /// Makes a vector of the given number of values before it.
    MakeVec(usize),
    /// Takes the component of the given number of the vector before it.
    VecIndex(usize),
}

/// The value that a name is bound to.
#[derive(Debug, Copy, Clone, PartialEq)]
pub enum BindingValue {
    Unknown,
    Int(i64),
    Float(Real64),
    Vector3(Vector<Real64, 3>),
}

/// A name of an expression and what it is bound to.
#[derive(Clone)]
pub struct Binding {
    pub name: String,
    pub value: BindingValue,
}

/// Why an expression is no expression.
#[derive(Clone, Copy, Debug, PartialEq, Eq, Structural)]
pub enum CompileFailure {
    /// A character that belongs to no token.
    BadSymbol,
    /// After a dot something other than one of x, y, z, w.
    BadIndex,
    /// Digits that are too many for a 64-bit integer.
    BadInt,
    /// Digits and dots that read as no real number.
    BadFloat,
    /// A closing bracket without its opening one, or with a curly one.
    BracketMismatch,
    /// A closing curly bracket without its opening one, or with a round
    /// one.
    CurlyMismatch,
    /// A token that cannot stand in an expression as it is written.
    UnexpectedToken,
    /// An operation that lacks a value to work on.
    NotEnoughOperands,
    /// More values than the operations take up.
    TooManyValues,
}

/// The error of turning text into an expression.
#[derive(Clone, Copy, Debug, PartialEq, Eq, Structural)]
pub struct CompilationError {
    pub reason: CompileFailure,
}

/// Either error.
#[derive(Clone, Copy, Debug, PartialEq, Eq)]
pub enum ExpressionError {
    CompilationError(CompilationError),
    EvaluationError(EvaluationError),
}

/// What kind of token is being read.
#[derive(Debug, Copy, Clone, PartialEq, Eq, Structural)]
pub enum ValueType {
    NotInitialized,
    Int,
    Float,
    Binding,
    DotIndex,
}

/// How far the tokens were read: those read, the names and the real
/// numbers met, and the token being read. A name is bound to nothing
/// yet.
pub struct Scan {
    pub tokens: Seq<Token>,
    pub names: Seq<Seq<char>>,
    pub floats: Seq<Seq<char>>,
    pub kind: ValueType,
    pub text: Seq<char>,
}

pub open spec fn is_digit_char(c: char) -> bool {
    '0' <= c <= '9'
}

pub open spec fn is_letter_char(c: char) -> bool {
    'a' <= c <= 'z' || 'A' <= c <= 'Z'
}

/// Space, tab, line feed, form feed, carriage return.
pub open spec fn is_space_char(c: char) -> bool {
    c == ' ' || c == '\t' || c == '\n' || c == '\x0c' || c == '\r'
}

/// Whether a character counts as a letter of some script.
pub uninterp spec fn alphabetic(c: char) -> bool;

/// `char::is_alphabetic`: whether the character is a letter of some
/// script; for the characters of ASCII, whether it is one of the letters
/// a to z and A to Z.
#[verifier::external_body]
fn is_alphabetic(c: char) -> (r: bool)
    ensures
        r == alphabetic(c),
        c <= '\x7f' ==> r == is_letter_char(c),
{
    c.is_alphabetic()
}

/// A text without the whitespace at its two ends.
pub uninterp spec fn trimmed_text(s: Seq<char>) -> Seq<char>;

/// `str::trim`: the text without the whitespace at its start and at its
/// end.
#[verifier::external_body]
fn trim(s: &str) -> (r: &str)
    ensures
        r@ == trimmed_text(s@),
{
    s.trim()
}

/// The number that decimal digits stand for; `None` where one of the
/// characters is no digit.
pub open spec fn digits_number(d: Seq<char>) -> Option<nat>
    decreases d.len(),
{
    if d.len() == 0 {
        Some(0)
    } else if !is_digit_char(d.last()) {
        None
    } else {
        match digits_number(d.drop_last()) {
            None => None,
            Some(n) => Some(n * 10 + (d.last() as u32 - '0' as u32) as nat),
        }
    }
}

/// Whether a plus or minus after this token works on two values.
pub open spec fn ends_value(t: Option<Token>) -> bool {
    match t {
        Some(Token::IntValue(_)) => true,
        Some(Token::FloatValue(_)) => true,
        Some(Token::Binding(_)) => true,
        Some(Token::BracketClose) => true,
        Some(Token::CurlyClose) => true,
        Some(Token::VecIndex(_)) => true,
        _ => false,
    }
}

/// Whether a dot after this token takes a component.
pub open spec fn takes_index(t: Option<Token>) -> bool {
    match t {
        Some(Token::Binding(_)) => true,
        Some(Token::CurlyClose) => true,
        Some(Token::BracketClose) => true,
        _ => false,
    }
}

/// The last token read, if there is one.
pub open spec fn last_token(tokens: Seq<Token>) -> Option<Token> {
    if tokens.len() > 0 {
        Some(tokens.last())
    } else {
        None
    }
}

/// The scan with one more token, and no token being read.
pub open spec fn with_token(s: Scan, t: Token) -> Scan {
    Scan {
        tokens: s.tokens.push(t),
        names: s.names,
        floats: s.floats,
        kind: ValueType::NotInitialized,
        text: Seq::empty(),
    }
}

/// The scan with the token that was being read brought to an end.
pub open spec fn finalized(s: Scan, readings: Readings) -> Result<Scan, CompileFailure> {
    match s.kind {
        ValueType::NotInitialized => Ok(s),
        ValueType::Int => match digits_number(s.text) {
            Some(n) => if n <= 0x7fff_ffff_ffff_ffff {
                Ok(with_token(s, Token::IntValue(n as i64)))
            } else {
                Err(CompileFailure::BadInt)
            },
            None => Err(CompileFailure::BadInt),
        },
        ValueType::Float => match readings(s.floats.len() as int) {
            Some(r) => Ok(
                Scan {
                    tokens: s.tokens.push(Token::FloatValue(r)),
                    names: s.names,
                    floats: s.floats.push(s.text),
                    kind: ValueType::NotInitialized,
                    text: Seq::empty(),
                },
            ),
            None => Err(CompileFailure::BadFloat),
        },
        ValueType::Binding => Ok(
            Scan {
                tokens: s.tokens.push(Token::Binding(s.names.len() as usize)),
                names: s.names.push(s.text),
                floats: s.floats,
                kind: ValueType::NotInitialized,
                text: Seq::empty(),
            },
        ),
        ValueType::DotIndex => if s.text == seq!['x'] {
            Ok(with_token(s, Token::VecIndex(0)))
        } else if s.text == seq!['y'] {
            Ok(with_token(s, Token::VecIndex(1)))
        } else if s.text == seq!['z'] {
            Ok(with_token(s, Token::VecIndex(2)))
        } else if s.text == seq!['w'] {
            Ok(with_token(s, Token::VecIndex(3)))
        } else {
            Err(CompileFailure::BadIndex)
        },
    }
}

/// The scan with a token of the given kind begun, or gone on with.
pub open spec fn reading(s: Scan, kind: ValueType, text: Seq<char>) -> Scan {
    Scan { tokens: s.tokens, names: s.names, floats: s.floats, kind, text }
}

/// The token that a character stands for by itself, after the tokens
/// `tokens`.
pub open spec fn symbol(c: char, tokens: Seq<Token>) -> Option<Token> {
    if c == '+' {
        Some(
            if ends_value(last_token(tokens)) {
                Token::BinaryPlus
            } else {
                Token::UnaryPlus
            },
        )
    } else if c == '-' {
        Some(
            if ends_value(last_token(tokens)) {
                Token::BinaryMinus
            } else {
                Token::UnaryMinus
            },
        )
    } else if c == '*' {
        Some(Token::Multiply)
    } else if c == '/' {
        Some(Token::Divide)
    } else if c == '(' {
        Some(Token::BracketOpen)
    } else if c == ')' {
        Some(Token::BracketClose)
    } else if c == '{' {
        Some(Token::CurlyOpen)
    } else if c == '}' {
        Some(Token::CurlyClose)
    } else if c == ',' {
        Some(Token::Comma)
    } else {
        None
    }
}

/// The scan after one more character.
///
/// Whitespace ends a token. A digit or a dot begins a number or goes on
/// with it; a number with a dot is a real. After a name, a closing
/// bracket or a closing curly bracket, a dot begins the name of a
/// component. `@` begins a name, which goes on with letters and digits.
/// Any other character ends the token being read and stands for itself;
/// a dot there begins the name of a component.
pub open spec fn step(s: Scan, c: char, readings: Readings) -> Result<Scan, CompileFailure> {
    if is_space_char(c) {
        finalized(s, readings)
    } else if s.kind == ValueType::NotInitialized && c == '.' && takes_index(
        last_token(s.tokens),
    ) {
        Ok(reading(s, ValueType::DotIndex, Seq::empty()))
    } else if (s.kind == ValueType::NotInitialized || s.kind == ValueType::Float || s.kind
        == ValueType::Int) && (is_digit_char(c) || c == '.') {
        Ok(
            reading(
                s,
                if c == '.' || s.kind == ValueType::Float {
                    ValueType::Float
                } else {
                    ValueType::Int
                },
                s.text.push(c),
            ),
        )
    } else if s.kind == ValueType::NotInitialized && c == '@' {
        Ok(reading(s, ValueType::Binding, Seq::empty()))
    } else if s.kind == ValueType::Binding && (is_letter_char(c) || is_digit_char(c)) {
        Ok(reading(s, ValueType::Binding, s.text.push(c)))
    } else if s.kind == ValueType::DotIndex && alphabetic(c) {
        Ok(reading(s, ValueType::DotIndex, s.text.push(c)))
    } else {
        match finalized(s, readings) {
            Err(x) => Err(x),
            Ok(f) => if c == '.' {
                Ok(reading(f, ValueType::DotIndex, Seq::empty()))
            } else {
                match symbol(c, f.tokens) {
                    Some(t) => Ok(with_token(f, t)),
                    None => Err(CompileFailure::BadSymbol),
                }
            },
        }
    }
}

/// The scan after the characters `chars`.
pub open spec fn scanned(chars: Seq<char>, readings: Readings) -> Result<Scan, CompileFailure>
    decreases chars.len(),
{
    if chars.len() == 0 {
        Ok(
            Scan {
                tokens: Seq::empty(),
                names: Seq::empty(),
                floats: Seq::empty(),
                kind: ValueType::NotInitialized,
                text: Seq::empty(),
            },
        )
    } else {
        match scanned(chars.drop_last(), readings) {
            Err(x) => Err(x),
            Ok(s) => step(s, chars.last(), readings),
        }
    }
}

/// The tokens of a line, with the names and the real numbers met: the
/// scan of the line without the whitespace at its ends, brought to an
/// end.
pub open spec fn tokenized(line: Seq<char>, readings: Readings) -> Result<Scan, CompileFailure> {
    match scanned(trimmed_text(line), readings) {
        Err(x) => Err(x),
        Ok(s) => finalized(s, readings),
    }
}

/// Whether each of the bindings is bound to nothing yet.
pub open spec fn unbound(bindings: Seq<Binding>) -> bool {
    forall|i: int| 0 <= i < bindings.len() ==> (#[trigger] bindings[i]).value is Unknown
}

/// The names of a list of bindings.
pub open spec fn names_of(bindings: Seq<Binding>) -> Seq<Seq<char>> {
    Seq::new(bindings.len(), |i: int| bindings[i].name@)
}

/// The tokens being read from a line.
pub struct Scanner<'a> {
    pub line: &'a str,
    pub tokens: Vec<Token>,
    pub bindings: Vec<Binding>,
    pub floats: Vec<String>,
    pub kind: ValueType,
    pub start: usize,
    pub end: usize,
}

impl<'a> View for Scanner<'a> {
    type V = Scan;

    open spec fn view(&self) -> Scan {
        Scan {
            tokens: self.tokens@,
            names: names_of(self.bindings@),
            floats: strings_view(self.floats@),
            kind: self.kind,
            text: self.line@.subrange(self.start as int, self.end as int),
        }
    }
}

/// Where one character is no digit, the whole is no number.
pub proof fn lemma_digits_number_all(d: Seq<char>, k: int)
    requires
        0 <= k < d.len(),
        !is_digit_char(d[k]),
    ensures
        digits_number(d) is None,
    decreases d.len(),
{
    if k < d.len() - 1 {
        lemma_digits_number_all(d.drop_last(), k);
    }
}

/// More digits make a number no smaller.
pub proof fn lemma_digits_number_grows(d: Seq<char>, k: int)
    requires
        0 <= k <= d.len(),
        digits_number(d) is Some,
    ensures
        digits_number(d.take(k)) is Some,
        digits_number(d.take(k))->0 <= digits_number(d)->0,
    decreases d.len() - k,
{
    if k == d.len() {
        assert(d.take(k) =~= d);
    } else {
        assert(d.drop_last().take(k) =~= d.take(k));
        lemma_digits_number_grows(d.drop_last(), k);
    }
}

impl<'a> Scanner<'a> {
    /// The marks of the token being read lie within the line.
    pub open spec fn wf(&self) -> bool {
        self.start <= self.end <= self.line@.len() && unbound(self.bindings@)
    }

    /// The 64-bit integer that the digits of the token being read stand
    /// for.
    fn integer(&self) -> (r: Option<i64>)
        requires
            self.wf(),
        ensures
            r == (match digits_number(self@.text) {
                Some(n) => if n <= 0x7fff_ffff_ffff_ffff {
                    Some(n as i64)
                } else {
                    None
                },
                None => None,
            }),
    {
        let ghost d = self@.text;
        let mut acc: u64 = 0;
        let mut i: usize = self.start;
        assert(d.take(0) =~= Seq::<char>::empty());
        while i < self.end
            invariant
                self.wf(),
                self.start <= i <= self.end,
                d == self@.text,
                digits_number(d.take(i - self.start)) == Some(acc as nat),
                acc <= 0x7fff_ffff_ffff_ffff,
            decreases self.end - i,
        {
            let c: char = self.line.get_char(i);
            assert(c == d[i - self.start]);
            assert(d.take(i - self.start + 1).drop_last() =~= d.take(i - self.start));
            if !('0' <= c && c <= '9') {
                proof {
                    lemma_digits_number_all(d, i - self.start);
                }
                return None;
            }
            let digit: u64 = (c as u32 - '0' as u32) as u64;
            if acc > (0x7fff_ffff_ffff_ffff - digit) / 10 {
                proof {
                    if digits_number(d) is Some {
                        lemma_digits_number_grows(d, i - self.start + 1);
                    }
                }
                return None;
            }
            acc = acc * 10 + digit;
            i = i + 1;
        }
        assert(d.take(i - self.start) =~= d);
        Some(acc as i64)
    }

    /// Whether the token being read is the one character `c`.
    fn is_char(&self, c: char) -> (r: bool)
        requires
            self.wf(),
        ensures
            r == (self@.text == seq![c]),
    {
        if self.end - self.start == 1 && self.line.get_char(self.start) == c {
            assert(self@.text =~= seq![c]);
            true
        } else {
            proof {
                if self@.text == seq![c] {
                    assert(self@.text.len() == 1);
                    assert(self@.text[0] == c);
                }
            }
            false
        }
    }

    /// Adds a token; no token is being read then.
    fn push(&mut self, t: Token)
        requires
            old(self).wf(),
        ensures
            final(self).wf(),
            final(self).line == old(self).line,
            final(self).end == old(self).end,
            final(self).start == old(self).end,
            final(self)@ == with_token(old(self)@, t),
    {
        self.tokens.push(t);
        self.kind = ValueType::NotInitialized;
        self.start = self.end;
        assert(self@.text =~= Seq::<char>::empty());
    }

    /// Brings the token being read to an end.
    fn finalize(&mut self, reals: &Vec<Option<Real64>>, scanning: bool) -> (r: Result<
        (),
        CompilationError,
    >)
        requires
            old(self).wf(),
        ensures
            final(self).line == old(self).line,
            match finalized(old(self)@, readings_for(reals@, scanning)) {
                Ok(s) => r is Ok && final(self)@ == s && final(self).wf() && final(self).end == old(
                    self,
                ).end,
                Err(x) => r is Err && r->Err_0.reason == x,
            },
    {
        match self.kind {
            ValueType::NotInitialized => Ok(()),
            ValueType::Int => match self.integer() {
                Some(i) => {
                    self.push(Token::IntValue(i));
                    Ok(())
                },
                None => Err(CompilationError { reason: CompileFailure::BadInt }),
            },
            ValueType::Float => {
                let k: usize = self.floats.len();
                let reading: Option<Real64> = if scanning {
                    Some(Real64 { bits: 0 })
                } else if k < reals.len() {
                    reals[k]
                } else {
                    None
                };
                match reading {
                    Some(x) => {
                        let ghost before = strings_view(self.floats@);
                        let text: String = self.line.substring_char(self.start, self.end).to_owned();
                        self.floats.push(text);
                        assert(strings_view(self.floats@) =~= before.push(old(self)@.text));
                        self.push(Token::FloatValue(x));
                        Ok(())
                    },
                    None => Err(CompilationError { reason: CompileFailure::BadFloat }),
                }
            },
            ValueType::Binding => {
                let ghost before = names_of(self.bindings@);
                let token_name: String = self.line.substring_char(self.start, self.end).to_owned();
                let number: usize = self.bindings.len();
                self.bindings.push(Binding { name: token_name, value: BindingValue::Unknown });
                assert(names_of(self.bindings@) =~= before.push(old(self)@.text));
                self.push(Token::Binding(number));
                Ok(())
            },
            ValueType::DotIndex => {
                if self.is_char('x') {
                    self.push(Token::VecIndex(0));
                    Ok(())
                } else if self.is_char('y') {
                    self.push(Token::VecIndex(1));
                    Ok(())
                } else if self.is_char('z') {
                    self.push(Token::VecIndex(2));
                    Ok(())
                } else if self.is_char('w') {
                    self.push(Token::VecIndex(3));
                    Ok(())
                } else {
                    Err(CompilationError { reason: CompileFailure::BadIndex })
                }
            },
        }
    }

    /// The last token read.
    fn last(&self) -> (r: Option<Token>)
        ensures
            r == last_token(self.tokens@),
    {
        if self.tokens.len() > 0 {
            Some(self.tokens[self.tokens.len() - 1])
        } else {
            None
        }
    }

    /// Whether a plus or minus now works on two values.
    fn after_value(&self) -> (r: bool)
        ensures
            r == ends_value(last_token(self.tokens@)),
    {
        match self.last() {
            Some(Token::IntValue(_)) => true,
            Some(Token::FloatValue(_)) => true,
            Some(Token::Binding(_)) => true,
            Some(Token::BracketClose) => true,
            Some(Token::CurlyClose) => true,
            Some(Token::VecIndex(_)) => true,
            _ => false,
        }
    }

    /// Whether a dot now takes a component.
    fn before_index(&self) -> (r: bool)
        ensures
            r == takes_index(last_token(self.tokens@)),
    {
        match self.last() {
            Some(Token::Binding(_)) => true,
            Some(Token::CurlyClose) => true,
            Some(Token::BracketClose) => true,
            _ => false,
        }
    }

    /// The token that a character stands for by itself.
    fn symbol(&self, c: char) -> (r: Option<Token>)
        ensures
            r == symbol(c, self.tokens@),
    {
        if c == '+' {
            Some(
                if self.after_value() {
                    Token::BinaryPlus
                } else {
                    Token::UnaryPlus
                },
            )
        } else if c == '-' {
            Some(
                if self.after_value() {
                    Token::BinaryMinus
                } else {
                    Token::UnaryMinus
                },
            )
        } else if c == '*' {
            Some(Token::Multiply)
        } else if c == '/' {
            Some(Token::Divide)
        } else if c == '(' {
            Some(Token::BracketOpen)
        } else if c == ')' {
            Some(Token::BracketClose)
        } else if c == '{' {
            Some(Token::CurlyOpen)
        } else if c == '}' {
            Some(Token::CurlyClose)
        } else if c == ',' {
            Some(Token::Comma)
        } else {
            None
        }
    }

    /// Takes in the character at place `i`, where the token being read
    /// ends.
    fn take(&mut self, i: usize, reals: &Vec<Option<Real64>>, scanning: bool) -> (r: Result<
        (),
        CompilationError,
    >)
        requires
            old(self).wf(),
            old(self).end == i,
            i < old(self).line@.len() <= usize::MAX,
            old(self).kind == ValueType::NotInitialized ==> old(self).start == i,
        ensures
            final(self).line == old(self).line,
            match step(old(self)@, old(self).line@[i as int], readings_for(reals@, scanning)) {
                Ok(s) => r is Ok && final(self)@ == s && final(self).wf() && final(self).end == i
                    + 1 && (final(self).kind == ValueType::NotInitialized ==> final(self).start
                    == i + 1),
                Err(x) => r is Err && r->Err_0.reason == x,
            },
    {
        let c: char = self.line.get_char(i);
        let ghost text = self@.text;
        proof {
            if self.kind == ValueType::NotInitialized {
                assert(text =~= Seq::<char>::empty());
            }
        }
        let is_digit: bool = '0' <= c && c <= '9';
        let is_letter: bool = ('a' <= c && c <= 'z') || ('A' <= c && c <= 'Z');
        if c == ' ' || c == '\t' || c == '\n' || c == '\x0c' || c == '\r' {
            match self.finalize(reals, scanning) {
                Ok(_) => {
                    self.start = i + 1;
                    self.end = i + 1;
                    assert(self@.text =~= Seq::<char>::empty());
                    Ok(())
                },
                Err(x) => Err(x),
            }
        } else if matches!(self.kind, ValueType::NotInitialized) && c == '.' && self.before_index() {
            self.kind = ValueType::DotIndex;
            self.start = i + 1;
            self.end = i + 1;
            assert(self@.text =~= Seq::<char>::empty());
            Ok(())
        } else if (matches!(self.kind, ValueType::NotInitialized) || matches!(
            self.kind,
            ValueType::Float
        ) || matches!(self.kind, ValueType::Int)) && (is_digit || c == '.') {
            self.kind = if c == '.' || matches!(self.kind, ValueType::Float) {
                ValueType::Float
            } else {
                ValueType::Int
            };
            self.end = i + 1;
            assert(self@.text =~= text.push(c));
            Ok(())
        } else if matches!(self.kind, ValueType::NotInitialized) && c == '@' {
            self.kind = ValueType::Binding;
            self.start = i + 1;
            self.end = i + 1;
            assert(self@.text =~= Seq::<char>::empty());
            Ok(())
        } else if matches!(self.kind, ValueType::Binding) && (is_letter || is_digit) {
            self.end = i + 1;
            assert(self@.text =~= text.push(c));
            Ok(())
        } else if matches!(self.kind, ValueType::DotIndex) && is_alphabetic(c) {
            self.end = i + 1;
            assert(self@.text =~= text.push(c));
            Ok(())
        } else {
            match self.finalize(reals, scanning) {
                Err(x) => Err(x),
                Ok(_) => {
                    self.start = i + 1;
                    self.end = i + 1;
                    assert(self@.text =~= Seq::<char>::empty());
                    if c == '.' {
                        self.kind = ValueType::DotIndex;
                        Ok(())
                    } else {
                        match self.symbol(c) {
                            Some(t) => {
                                self.push(t);
                                Ok(())
                            },
                            None => Err(CompilationError { reason: CompileFailure::BadSymbol }),
                        }
                    }
                },
            }
        }
    }
}

/// Reads the tokens of a line.
fn scan<'a>(line: &'a str, reals: &Vec<Option<Real64>>, scanning: bool) -> (r: Result<
    Scanner<'a>,
    CompilationError,
>)
    ensures
        match tokenized(line@, readings_for(reals@, scanning)) {
            Ok(s) => r is Ok && r->Ok_0@ == s && unbound(r->Ok_0.bindings@),
            Err(x) => r is Err && r->Err_0.reason == x,
        },
{
    let text: &str = trim(line);
    let n: usize = text.unicode_len();
    let mut scanner = Scanner {
        line: text,
        tokens: Vec::new(),
        bindings: Vec::new(),
        floats: Vec::new(),
        kind: ValueType::NotInitialized,
        start: 0,
        end: 0,
    };
    let ghost readings = readings_for(reals@, scanning);
    proof {
        assert(scanner@.names =~= Seq::<Seq<char>>::empty());
        assert(scanner@.floats =~= Seq::<Seq<char>>::empty());
        assert(scanner@.text =~= Seq::<char>::empty());
        assert(text@.take(0) =~= Seq::<char>::empty());
    }
    let mut i: usize = 0;
    while i < n
        invariant
            i <= n,
            n == text@.len(),
            text@ == trimmed_text(line@),
            readings == readings_for(reals@, scanning),
            scanner.line == text,
            scanner.wf(),
            scanner.end == i,
            scanner.kind == ValueType::NotInitialized ==> scanner.start == i,
            scanned(text@.take(i as int), readings) == Ok::<Scan, CompileFailure>(scanner@),
        decreases n - i,
    {
        proof {
            assert(text@.take(i + 1).drop_last() =~= text@.take(i as int));
            assert(text@.take(i + 1).last() == text@[i as int]);
        }
        match scanner.take(i, reals, scanning) {
            Ok(_) => {},
            Err(x) => {
                proof {
                    lemma_scanned_prefix(text@, readings, i + 1);
                }
                return Err(x);
            },
        }
        i = i + 1;
    }
    assert(text@.take(i as int) =~= text@);
    match scanner.finalize(reals, scanning) {
        Ok(_) => Ok(scanner),
        Err(x) => Err(x),
    }
}

/// Where the start of a line does not scan, neither does the line.
pub proof fn lemma_scanned_prefix(chars: Seq<char>, readings: Readings, k: int)
    requires
        0 <= k <= chars.len(),
        scanned(chars.take(k), readings) is Err,
    ensures
        scanned(chars, readings) == scanned(chars.take(k), readings),
    decreases chars.len() - k,
{
    if k == chars.len() {
        assert(chars.take(k) =~= chars);
    } else {
        assert(chars.take(k + 1).drop_last() =~= chars.take(k));
        lemma_scanned_prefix(chars, readings, k + 1);
    }
}

/// Parses an expression into its tokens and the names that it binds.
/// `reals` tells what each real number of the line reads as, in the
/// order in which they stand (`float_literals` lists them).
pub fn tokenize(line: &str, reals: &Vec<Option<Real64>>) -> (r: Result<
    (Vec<Token>, Vec<Binding>),
    CompilationError,
>)
    ensures
        match tokenized(line@, readings_of(reals@)) {
            Ok(s) => r is Ok && r->Ok_0.0@ == s.tokens && names_of(r->Ok_0.1@) == s.names
                && unbound(r->Ok_0.1@),
            Err(x) => r is Err && r->Err_0.reason == x,
        },
{
    match scan(line, reals, false) {
        Ok(s) => Ok((s.tokens, s.bindings)),
        Err(x) => Err(x),
    }
}

/// The real numbers of a line, as they stand in it; those before the
/// first error where the line does not scan even though every real
/// number is taken to read well.
pub open spec fn line_floats(line: Seq<char>) -> Option<Seq<Seq<char>>> {
    match tokenized(line, any_reading()) {
        Ok(s) => Some(s.floats),
        Err(x) => None,
    }
}

/// The real numbers of a line, as they stand in it; `None` where the
/// line does not scan even though every real number is taken to read
/// well.
pub fn float_literals(line: &str) -> (r: Option<Vec<String>>)
    ensures
        match line_floats(line@) {
            Some(f) => r is Some && strings_view(r->0@) == f,
            None => r is None,
        },
{
    let reals: Vec<Option<Real64>> = Vec::new();
    match scan(line, &reals, true) {
        Ok(s) => Some(s.floats),
        Err(x) => None,
    }
}

} // verus!

verus! {

/// Whether an operator on the stack gives way to one that comes in: to
/// a plus, a minus or a comma every operator does; to a times or a
/// divided-by the signs and those two do.
pub open spec fn gives_way(t: Token, wide: bool) -> bool {
    match t {
        Token::UnaryPlus => true,
        Token::UnaryMinus => true,
        Token::Multiply => true,
        Token::Divide => true,
        Token::BinaryPlus => wide,
        Token::BinaryMinus => wide,
        _ => false,
    }
}

/// The stack of operators and the output.
pub struct Shunt {
    pub stack: Seq<Token>,
    pub result: Seq<Token>,
}

/// The operators on top of the stack that give way, moved to the
/// output.
pub open spec fn drained(s: Shunt, wide: bool) -> Shunt
    decreases s.stack.len(),
{
    if s.stack.len() > 0 && gives_way(s.stack.last(), wide) {
        drained(Shunt { stack: s.stack.drop_last(), result: s.result.push(s.stack.last()) }, wide)
    } else {
        s
    }
}

/// The stack down to the opening bracket moved to the output, and the
/// bracket dropped.
pub open spec fn bracket_closed(s: Shunt) -> Result<Shunt, CompileFailure>
    decreases s.stack.len(),
{
    if s.stack.len() == 0 {
        Err(CompileFailure::BracketMismatch)
    } else {
        match s.stack.last() {
            Token::BracketOpen => Ok(Shunt { stack: s.stack.drop_last(), result: s.result }),
            Token::CurlyOpen => Err(CompileFailure::BracketMismatch),
            x => bracket_closed(Shunt { stack: s.stack.drop_last(), result: s.result.push(x) }),
        }
    }
}

/// The stack down to the opening curly bracket moved to the output, the
/// commas counted, and the bracket replaced in the output by the making
/// of a vector of one value more than there were commas.
pub open spec fn curly_closed(s: Shunt, count: int) -> Result<Shunt, CompileFailure>
    decreases s.stack.len(),
{
    if s.stack.len() == 0 {
        Err(CompileFailure::CurlyMismatch)
    } else {
        match s.stack.last() {
            Token::CurlyOpen => Ok(
                Shunt {
                    stack: s.stack.drop_last(),
                    result: s.result.push(Token::MakeVec(count as usize)),
                },
            ),
            Token::BracketOpen => Err(CompileFailure::CurlyMismatch),
            Token::Comma => curly_closed(
                Shunt { stack: s.stack.drop_last(), result: s.result },
                count + 1,
            ),
            x => curly_closed(
                Shunt { stack: s.stack.drop_last(), result: s.result.push(x) },
                count,
            ),
        }
    }
}

/// The state after one more token came in.
pub open spec fn shunt(s: Shunt, t: Token) -> Result<Shunt, CompileFailure> {
    match t {
        Token::IntValue(_) | Token::FloatValue(_) | Token::VectorValue(_) | Token::Binding(_)
        | Token::VecIndex(_) => Ok(Shunt { stack: s.stack, result: s.result.push(t) }),
        Token::UnaryPlus | Token::UnaryMinus | Token::BracketOpen | Token::CurlyOpen => Ok(
            Shunt { stack: s.stack.push(t), result: s.result },
        ),
        Token::BracketClose => bracket_closed(s),
        Token::CurlyClose => curly_closed(s, 1),
        Token::Comma | Token::BinaryPlus | Token::BinaryMinus => Ok(
            Shunt { stack: drained(s, true).stack.push(t), result: drained(s, true).result },
        ),
        Token::Multiply | Token::Divide => Ok(
            Shunt { stack: drained(s, false).stack.push(t), result: drained(s, false).result },
        ),
        Token::MakeVec(_) => Err(CompileFailure::UnexpectedToken),
    }
}

/// The state after the tokens `tokens` came in.
pub open spec fn shunted(tokens: Seq<Token>) -> Result<Shunt, CompileFailure>
    decreases tokens.len(),
{
    if tokens.len() == 0 {
        Ok(Shunt { stack: Seq::empty(), result: Seq::empty() })
    } else {
        match shunted(tokens.drop_last()) {
            Err(x) => Err(x),
            Ok(s) => shunt(s, tokens.last()),
        }
    }
}

/// The tokens of an expression in postfix order: operators after what
/// they work on, no brackets, and after the values of a vector the
/// making of it. A bracket that was opened and not closed stays in the
/// output, where `validate_postfix` finds it.
pub open spec fn postfix_of(tokens: Seq<Token>) -> Result<Seq<Token>, CompileFailure> {
    match shunted(tokens) {
        Err(x) => Err(x),
        Ok(s) => Ok(s.result + s.stack.reverse()),
    }
}

/// Where the start of an expression cannot be ordered, neither can the
/// expression.
pub proof fn lemma_shunted_prefix(tokens: Seq<Token>, k: int)
    requires
        0 <= k <= tokens.len(),
        shunted(tokens.take(k)) is Err,
    ensures
        shunted(tokens) == shunted(tokens.take(k)),
    decreases tokens.len() - k,
{
    if k == tokens.len() {
        assert(tokens.take(k) =~= tokens);
    } else {
        assert(tokens.take(k + 1).drop_last() =~= tokens.take(k));
        lemma_shunted_prefix(tokens, k + 1);
    }
}

/// Moves the operators that give way from the stack to the output.
fn drain(stack: &mut Vec<Token>, result: &mut Vec<Token>, wide: bool)
    ensures
        (Shunt { stack: final(stack)@, result: final(result)@ }) == drained(
            Shunt { stack: old(stack)@, result: old(result)@ },
            wide,
        ),
{
    loop
        invariant
            drained(Shunt { stack: stack@, result: result@ }, wide) == drained(
                Shunt { stack: old(stack)@, result: old(result)@ },
                wide,
            ),
        decreases stack@.len(),
    {
        if stack.len() == 0 {
            return ;
        }
        let top: Token = stack[stack.len() - 1];
        let gives: bool = match top {
            Token::UnaryPlus => true,
            Token::UnaryMinus => true,
            Token::Multiply => true,
            Token::Divide => true,
            Token::BinaryPlus => wide,
            Token::BinaryMinus => wide,
            _ => false,
        };
        if !gives {
            return ;
        }
        let ghost before = stack@;
        let _ = stack.pop();
        assert(stack@ =~= before.drop_last());
        result.push(top);
    }
}

/// Closes a bracket.
fn close_bracket(stack: &mut Vec<Token>, result: &mut Vec<Token>) -> (r: Result<
    (),
    CompilationError,
>)
    ensures
        match bracket_closed(Shunt { stack: old(stack)@, result: old(result)@ }) {
            Ok(s) => r is Ok && (Shunt { stack: final(stack)@, result: final(result)@ }) == s,
            Err(x) => r is Err && r->Err_0.reason == x,
        },
{
    loop
        invariant
            bracket_closed(Shunt { stack: stack@, result: result@ }) == bracket_closed(
                Shunt { stack: old(stack)@, result: old(result)@ },
            ),
        decreases stack@.len(),
    {
        let ghost before = stack@;
        match stack.pop() {
            None => {
                return Err(CompilationError { reason: CompileFailure::BracketMismatch });
            },
            Some(top) => {
                assert(stack@ =~= before.drop_last());
                match top {
                    Token::BracketOpen => {
                        return Ok(());
                    },
                    Token::CurlyOpen => {
                        return Err(CompilationError { reason: CompileFailure::BracketMismatch });
                    },
                    x => {
                        result.push(x);
                    },
                }
            },
        }
    }
}

/// Closes a curly bracket.
fn close_curly(stack: &mut Vec<Token>, result: &mut Vec<Token>) -> (r: Result<
    (),
    CompilationError,
>)
    ensures
        match curly_closed(Shunt { stack: old(stack)@, result: old(result)@ }, 1) {
            Ok(s) => r is Ok && (Shunt { stack: final(stack)@, result: final(result)@ }) == s,
            Err(x) => r is Err && r->Err_0.reason == x,
        },
{
    let mut elem_count: u128 = 1;
    let total: usize = stack.len();
    loop
        invariant
            elem_count + stack@.len() <= total + 1,
            total <= usize::MAX,
            curly_closed(Shunt { stack: stack@, result: result@ }, elem_count as int)
                == curly_closed(Shunt { stack: old(stack)@, result: old(result)@ }, 1),
        decreases stack@.len(),
    {
        let ghost before = stack@;
        match stack.pop() {
            None => {
                return Err(CompilationError { reason: CompileFailure::CurlyMismatch });
            },
            Some(top) => {
                assert(stack@ =~= before.drop_last());
                match top {
                    Token::CurlyOpen => {
                        result.push(Token::MakeVec(elem_count as usize));
                        return Ok(());
                    },
                    Token::BracketOpen => {
                        return Err(CompilationError { reason: CompileFailure::CurlyMismatch });
                    },
                    Token::Comma => {
                        elem_count = elem_count + 1;
                    },
                    x => {
                        result.push(x);
                    },
                }
            },
        }
    }
}

/// Brings the tokens of an expression into postfix order.
pub fn to_postfix(tokens_sequence: Vec<Token>) -> (r: Result<Vec<Token>, CompilationError>)
    ensures
        match postfix_of(tokens_sequence@) {
            Ok(p) => r is Ok && r->Ok_0@ == p,
            Err(x) => r is Err && r->Err_0.reason == x,
        },
{
    let mut stack: Vec<Token> = Vec::new();
    let mut result: Vec<Token> = Vec::new();
    let mut i: usize = 0;
    assert(tokens_sequence@.take(0) =~= Seq::<Token>::empty());
    while i < tokens_sequence.len()
        invariant
            i <= tokens_sequence@.len(),
            shunted(tokens_sequence@.take(i as int)) == Ok::<Shunt, CompileFailure>(
                Shunt { stack: stack@, result: result@ },
            ),
        decreases tokens_sequence.len() - i,
    {
        proof {
            assert(tokens_sequence@.take(i + 1).drop_last() =~= tokens_sequence@.take(i as int));
        }
        let token: Token = tokens_sequence[i];
        let outcome: Result<(), CompilationError> = match token {
            Token::IntValue(_) | Token::FloatValue(_) | Token::VectorValue(_) | Token::Binding(_)
            | Token::VecIndex(_) => {
                result.push(token);
                Ok(())
            },
            Token::UnaryPlus | Token::UnaryMinus | Token::BracketOpen | Token::CurlyOpen => {
                stack.push(token);
                Ok(())
            },
            Token::BracketClose => close_bracket(&mut stack, &mut result),
            Token::CurlyClose => close_curly(&mut stack, &mut result),
            Token::Comma | Token::BinaryPlus | Token::BinaryMinus => {
                drain(&mut stack, &mut result, true);
                stack.push(token);
                Ok(())
            },
            Token::Multiply | Token::Divide => {
                drain(&mut stack, &mut result, false);
                stack.push(token);
                Ok(())
            },
            Token::MakeVec(_) => Err(CompilationError { reason: CompileFailure::UnexpectedToken }),
        };
        match outcome {
            Ok(_) => {},
            Err(x) => {
                proof {
                    lemma_shunted_prefix(tokens_sequence@, i + 1);
                }
                return Err(x);
            },
        }
        i = i + 1;
    }
    assert(tokens_sequence@.take(i as int) =~= tokens_sequence@);
    let ghost flushed = result@ + stack@.reverse();
    while stack.len() > 0
        invariant
            flushed == result@ + stack@.reverse(),
        decreases stack@.len(),
    {
        let ghost before = stack@;
        let ghost out = result@;
        match stack.pop() {
            Some(x) => {
                result.push(x);
                assert(stack@ =~= before.drop_last());
                assert(out.push(x) + before.drop_last().reverse() =~= out + before.reverse());
            },
            None => {},
        }
    }
    assert(result@ + stack@.reverse() =~= result@);
    Ok(result)
}

/// How many values are at hand after a token, where `size` were at hand
/// before it; an error for a token that postfix order does not know.
pub open spec fn operands_after(size: int, t: Token) -> Result<int, CompileFailure> {
    match t {
        Token::IntValue(_) | Token::FloatValue(_) | Token::VectorValue(_) | Token::Binding(_) => Ok(
            size + 1,
        ),
        Token::UnaryMinus | Token::UnaryPlus | Token::VecIndex(_) => Ok(size),
        Token::BinaryMinus | Token::BinaryPlus | Token::Multiply | Token::Divide => Ok(size - 1),
        Token::MakeVec(n) => Ok(size - n + 1),
        _ => Err(CompileFailure::UnexpectedToken),
    }
}

/// How many values are at hand after the tokens `tokens`: after each
/// token there must be one at least.
pub open spec fn operands(tokens: Seq<Token>) -> Result<int, CompileFailure>
    decreases tokens.len(),
{
    if tokens.len() == 0 {
        Ok(0)
    } else {
        match operands(tokens.drop_last()) {
            Err(x) => Err(x),
            Ok(size) => match operands_after(size, tokens.last()) {
                Err(x) => Err(x),
                Ok(next) => if next <= 0 {
                    Err(CompileFailure::NotEnoughOperands)
                } else {
                    Ok(next)
                },
            },
        }
    }
}

/// Whether tokens in postfix order work out to one value, and why not.
pub open spec fn postfix_checked(tokens: Seq<Token>) -> Result<(), CompileFailure> {
    match operands(tokens) {
        Err(x) => Err(x),
        Ok(size) => if size != 1 {
            Err(CompileFailure::TooManyValues)
        } else {
            Ok(())
        },
    }
}

/// Where the start of a sequence does not work out, neither does the
/// sequence.
pub proof fn lemma_operands_prefix(tokens: Seq<Token>, k: int)
    requires
        0 <= k <= tokens.len(),
        operands(tokens.take(k)) is Err,
    ensures
        operands(tokens) == operands(tokens.take(k)),
    decreases tokens.len() - k,
{
    if k == tokens.len() {
        assert(tokens.take(k) =~= tokens);
    } else {
        assert(tokens.take(k + 1).drop_last() =~= tokens.take(k));
        lemma_operands_prefix(tokens, k + 1);
    }
}

/// Checks that tokens in postfix order work out to one value.
pub fn validate_postfix(postfix_sequence: &Vec<Token>) -> (r: Result<(), CompilationError>)
    ensures
        match postfix_checked(postfix_sequence@) {
            Ok(_) => r is Ok,
            Err(x) => r is Err && r->Err_0.reason == x,
        },
{
    let mut stack_size: usize = 0;
    let mut i: usize = 0;
    assert(postfix_sequence@.take(0) =~= Seq::<Token>::empty());
    while i < postfix_sequence.len()
        invariant
            i <= postfix_sequence@.len(),
            stack_size <= i,
            operands(postfix_sequence@.take(i as int)) == Ok::<int, CompileFailure>(
                stack_size as int,
            ),
        decreases postfix_sequence.len() - i,
    {
        proof {
            assert(postfix_sequence@.take(i + 1).drop_last() =~= postfix_sequence@.take(i as int));
        }
        let next: Result<usize, CompilationError> = match postfix_sequence[i] {
            Token::IntValue(_) | Token::FloatValue(_) | Token::VectorValue(_)
            | Token::Binding(_) => Ok(stack_size + 1),
            Token::UnaryMinus | Token::UnaryPlus | Token::VecIndex(_) => if stack_size == 0 {
                Err(CompilationError { reason: CompileFailure::NotEnoughOperands })
            } else {
                Ok(stack_size)
            },
            Token::BinaryMinus | Token::BinaryPlus | Token::Multiply | Token::Divide => if stack_size
                <= 1 {
                Err(CompilationError { reason: CompileFailure::NotEnoughOperands })
            } else {
                Ok(stack_size - 1)
            },
            Token::MakeVec(n) => if n > stack_size {
                Err(CompilationError { reason: CompileFailure::NotEnoughOperands })
            } else {
                Ok(stack_size - n + 1)
            },
            _ => Err(CompilationError { reason: CompileFailure::UnexpectedToken }),
        };
        match next {
            Ok(n) => {
                stack_size = n;
            },
            Err(x) => {
                proof {
                    assert(operands(postfix_sequence@.take(i + 1)) is Err);
                    lemma_operands_prefix(postfix_sequence@, i + 1);
                }
                return Err(x);
            },
        }
        i = i + 1;
    }
    assert(postfix_sequence@.take(i as int) =~= postfix_sequence@);
    if stack_size != 1 {
        return Err(CompilationError { reason: CompileFailure::TooManyValues });
    }
    Ok(())
}

/// An expression made ready: its tokens in postfix order, and the names
/// that it binds, each with its value.
pub struct PrecompiledCode {
    postfix: Vec<Token>,
    bindings: Vec<Binding>,
}

/// The values of a list of bindings.
pub open spec fn values_of_bindings(bindings: Seq<Binding>) -> Seq<BindingValue> {
    Seq::new(bindings.len(), |i: int| bindings[i].value)
}

impl PrecompiledCode {
    /// The tokens in postfix order.
    pub closed spec fn code(&self) -> Seq<Token> {
        self.postfix@
    }

    /// The names that the expression binds, in the order in which they
    /// were met.
    pub closed spec fn names(&self) -> Seq<Seq<char>> {
        names_of(self.bindings@)
    }

    /// What the names are bound to.
    pub closed spec fn values(&self) -> Seq<BindingValue> {
        values_of_bindings(self.bindings@)
    }

    /// There is a value for each name.
    pub proof fn lemma_as_many_values_as_names(&self)
        ensures
            self.values().len() == self.names().len(),
    {
    }

    /// The tokens in postfix order.
    pub fn postfix(&self) -> (r: &Vec<Token>)
        ensures
            r@ == self.code(),
    {
        &self.postfix
    }

    /// The names that the expression binds.
    pub fn binding_names(&self) -> (r: Vec<&str>)
        ensures
            r@.len() == self.names().len(),
            forall|i: int| 0 <= i < r@.len() ==> (#[trigger] r@[i])@ == self.names()[i],
    {
        let mut out: Vec<&str> = Vec::new();
        let mut i: usize = 0;
        while i < self.bindings.len()
            invariant
                i <= self.bindings@.len(),
                out@.len() == i,
                forall|j: int| 0 <= j < i ==> (#[trigger] out@[j])@ == self.bindings@[j].name@,
            decreases self.bindings.len() - i,
        {
            out.push(self.bindings[i].name.as_str());
            i = i + 1;
        }
        out
    }

    /// What the names are bound to.
    pub fn clone_binding_values(&self) -> (r: Vec<BindingValue>)
        ensures
            r@ == self.values(),
    {
        let mut out: Vec<BindingValue> = Vec::new();
        let mut i: usize = 0;
        while i < self.bindings.len()
            invariant
                i <= self.bindings@.len(),
                out@ == values_of_bindings(self.bindings@).take(i as int),
            decreases self.bindings.len() - i,
        {
            out.push(self.bindings[i].value);
            assert(out@ =~= values_of_bindings(self.bindings@).take(i + 1));
            i = i + 1;
        }
        assert(values_of_bindings(self.bindings@).take(i as int) =~= values_of_bindings(
            self.bindings@,
        ));
        out
    }

    /// Binds the names to the values of `bindings`, one after the other;
    /// where there are fewer values than names, the names that are left
    /// keep what they are bound to.
    pub fn set_bindings_from_vec(&mut self, bindings: &Vec<BindingValue>)
        ensures
            final(self).code() == old(self).code(),
            final(self).names() == old(self).names(),
            final(self).values().len() == old(self).values().len(),
            forall|i: int|
                0 <= i < final(self).values().len() ==> #[trigger] final(self).values()[i] == (if i
                    < bindings@.len() {
                    bindings@[i]
                } else {
                    old(self).values()[i]
                }),
    {
        let mut i: usize = 0;
        while i < self.bindings.len() && i < bindings.len()
            invariant
                i <= self.bindings@.len(),
                i <= bindings@.len(),
                self.postfix == old(self).postfix,
                self.bindings@.len() == old(self).bindings@.len(),
                forall|j: int|
                    0 <= j < self.bindings@.len() ==> (#[trigger] self.bindings@[j]).name@ == old(
                        self,
                    ).bindings@[j].name@,
                forall|j: int|
                    0 <= j < self.bindings@.len() ==> (#[trigger] self.bindings@[j]).value == (if j
                        < i {
                        bindings@[j]
                    } else {
                        old(self).bindings@[j].value
                    }),
            decreases self.bindings.len() - i,
        {
            let name: String = self.bindings[i].name.clone();
            self.bindings.set(i, Binding { name, value: bindings[i] });
            i = i + 1;
        }
        assert(self.names() =~= old(self).names());
    }
}

/// Makes an expression ready: reads its tokens, brings them into
/// postfix order and checks that they work out to one value. `reals`
/// tells what each real number of the expression reads as, in the order
/// in which they stand (`float_literals` lists them).
pub fn precompile_expression(expression: &str, reals: &Vec<Option<Real64>>) -> (r: Result<
    PrecompiledCode,
    CompilationError,
>)
    ensures
        match tokenized(expression@, readings_of(reals@)) {
            Err(x) => r is Err && r->Err_0.reason == x,
            Ok(s) => match postfix_of(s.tokens) {
                Err(x) => r is Err && r->Err_0.reason == x,
                Ok(p) => match postfix_checked(p) {
                    Err(x) => r is Err && r->Err_0.reason == x,
                    Ok(_) => r is Ok && r->Ok_0.code() == p && r->Ok_0.names() == s.names && forall|
                        i: int,
                    |
                        0 <= i < r->Ok_0.values().len() ==> #[trigger] r->Ok_0.values()[i]
                            is Unknown,
                },
            },
        },
{
    let (tokenized, binds) = match tokenize(expression, reals) {
        Ok(x) => x,
        Err(x) => {
            return Err(x);
        },
    };
    let postfix: Vec<Token> = match to_postfix(tokenized) {
        Ok(x) => x,
        Err(x) => {
            return Err(x);
        },
    };
    match validate_postfix(&postfix) {
        Ok(_) => {},
        Err(x) => {
            return Err(x);
        },
    }
    Ok(PrecompiledCode { postfix, bindings: binds })
}

} // verus!
