//! Arithmetic with Unicode bidirectional isolates: tokens, a parser, and the
//! rewrite that makes right-to-left isolates explicit.

use vstd::prelude::*;
use vstd::utf8::{encode_scalar, encode_utf8, char_is_scalar};
use crate::chars::{is_numeric, is_whitespace, numeric, white_space};

verus! {

/// Left-to-right isolate.
pub const LRI: char = '\u{2066}';

/// Right-to-left isolate.
pub const RLI: char = '\u{2067}';

/// Pop directional isolate.
pub const PDI: char = '\u{2069}';

#[derive(Debug, Clone, Copy, PartialEq, Eq, Structural)]
pub enum Operator {
    Plus,
    Minus,
    Star,
    Slash,
}

#[derive(Debug, Clone, Copy, PartialEq, Eq, Structural)]
pub enum Direction {
    Lri,
    Rli,
}

#[derive(Debug, PartialEq, Eq)]
pub enum Expression {
    Value(i32),
    Operation { operator: Operator, left: Box<Expression>, right: Box<Expression> },
    Direction { direction: Direction, inner: Box<Expression> },
}

#[derive(Debug, Clone, Copy, PartialEq, Eq, Structural)]
pub enum Token {
    Number(i32),
    Operator(Operator),
    Paren { open: bool },
    Direction(Option<Direction>),
}

/// A character that starts no token, at this byte offset of the input.
#[derive(Debug, Clone, Copy, PartialEq, Eq, Structural)]
pub struct TokenizeError {
    pub index: usize,
}

#[derive(Debug, Clone, Copy, PartialEq, Eq, Structural)]
pub enum ParseError {
    /// An isolate was closed where one had to be opened.
    ExpectedDirection,
    /// An isolate's expression was followed by something other than its end.
    ExpectedIsolateEnd,
    ExpectedClosingParen,
    ExpectedValue,
}

/// The token that a character makes on its own.
pub open spec fn single_token(c: char) -> Option<Token> {
    if c == '+' {
        Some(Token::Operator(Operator::Plus))
    } else if c == '-' {
        Some(Token::Operator(Operator::Minus))
    } else if c == '*' {
        Some(Token::Operator(Operator::Star))
    } else if c == '/' {
        Some(Token::Operator(Operator::Slash))
    } else if c == '(' {
        Some(Token::Paren { open: true })
    } else if c == ')' {
        Some(Token::Paren { open: false })
    } else if c == LRI {
        Some(Token::Direction(Some(Direction::Lri)))
    } else if c == RLI {
        Some(Token::Direction(Some(Direction::Rli)))
    } else if c == PDI {
        Some(Token::Direction(None))
    } else {
        None
    }
}

/// A digit's value: its distance from `'0'`, in 32-bit wrapping arithmetic.
pub open spec fn digit_value(c: char) -> u32 {
    (c as u32).wrapping_sub(0x30)
}

/// The number that `cs[i..j]` writes, in 32-bit wrapping arithmetic.
pub open spec fn number_value(cs: Seq<char>, i: int, j: int) -> u32
    decreases j - i,
{
    if j <= i {
        0
    } else {
        number_value(cs, i, j - 1).wrapping_mul(10).wrapping_add(digit_value(cs[j - 1]))
    }
}

/// End of the run of numeric characters that starts at `i`.
pub open spec fn digits_end(cs: Seq<char>, i: int) -> int
    decreases cs.len() - i,
{
    if 0 <= i < cs.len() && numeric(cs[i]) {
        digits_end(cs, i + 1)
    } else {
        i
    }
}

pub open spec fn prepend_token(t: Token, rest: Result<Seq<Token>, TokenizeError>) -> Result<
    Seq<Token>,
    TokenizeError,
> {
    match rest {
        Ok(s) => Ok(seq![t] + s),
        Err(e) => Err(e),
    }
}

pub open spec fn prepend_tokens(pre: Seq<Token>, rest: Result<Seq<Token>, TokenizeError>) -> Result<
    Seq<Token>,
    TokenizeError,
> {
    match rest {
        Ok(s) => Ok(pre + s),
        Err(e) => Err(e),
    }
}

/// The tokens of `cs` from character `i` on; white space separates them.
pub open spec fn tokens_from(cs: Seq<char>, i: int) -> Result<Seq<Token>, TokenizeError>
    decreases cs.len() - i,
{
    if i < 0 || i >= cs.len() {
        Ok(seq![])
    } else if white_space(cs[i]) {
        tokens_from(cs, i + 1)
    } else if single_token(cs[i]) is Some {
        prepend_token(single_token(cs[i]).unwrap(), tokens_from(cs, i + 1))
    } else if numeric(cs[i]) {
        let k = digits_end(cs, i + 1);
        if k <= i || k > cs.len() {
            Ok(seq![])
        } else {
            prepend_token(Token::Number(number_value(cs, i, k) as i32), tokens_from(cs, k))
        }
    } else {
        Err(TokenizeError { index: encode_utf8(cs.take(i)).len() as usize })
    }
}

proof fn lemma_encode_concat(a: Seq<char>, b: Seq<char>)
    ensures
        encode_utf8(a + b) == encode_utf8(a) + encode_utf8(b),
    decreases a.len(),
{
    if a.len() > 0 {
        assert((a + b).drop_first() =~= a.drop_first() + b);
        lemma_encode_concat(a.drop_first(), b);
        assert(encode_utf8(a + b) =~= encode_scalar(a[0] as u32) + encode_utf8(a.drop_first() + b));
        assert(encode_utf8(a) + encode_utf8(b) =~= encode_scalar(a[0] as u32) + (encode_utf8(
            a.drop_first(),
        ) + encode_utf8(b)));
    } else {
        assert(a + b =~= b);
    }
}

/// Byte length of the first `j + 1` characters from that of the first `j`,
/// and its bound by the whole encoding.
proof fn lemma_offset_step(cs: Seq<char>, j: int)
    requires
        0 <= j < cs.len(),
    ensures
        encode_utf8(cs.take(j + 1)).len() == encode_utf8(cs.take(j)).len() + encode_scalar(
            cs[j] as u32,
        ).len(),
        encode_utf8(cs.take(j + 1)).len() <= encode_utf8(cs).len(),
{
    assert(cs.take(j + 1) =~= cs.take(j) + seq![cs[j]]);
    lemma_encode_concat(cs.take(j), seq![cs[j]]);
    assert(seq![cs[j]].drop_first() =~= Seq::<char>::empty());
    assert(encode_utf8(seq![cs[j]]) =~= encode_scalar(cs[j] as u32) + encode_utf8(Seq::<char>::empty()));
    assert(cs =~= cs.take(j + 1) + cs.skip(j + 1));
    lemma_encode_concat(cs.take(j + 1), cs.skip(j + 1));
}

/// Number of bytes in the UTF-8 encoding of a character.
fn char_width(c: char) -> (r: usize)
    ensures
        r == encode_scalar(c as u32).len(),
{
    proof {
        char_is_scalar(c);
    }
    let u = c as u32;
    if u < 0x80 {
        1
    } else if u < 0x800 {
        2
    } else if u < 0x10000 {
        3
    } else {
        4
    }
}

fn single_token_of(c: char) -> (r: Option<Token>)
    ensures
        r == single_token(c),
{
    if c == '+' {
        Some(Token::Operator(Operator::Plus))
    } else if c == '-' {
        Some(Token::Operator(Operator::Minus))
    } else if c == '*' {
        Some(Token::Operator(Operator::Star))
    } else if c == '/' {
        Some(Token::Operator(Operator::Slash))
    } else if c == '(' {
        Some(Token::Paren { open: true })
    } else if c == ')' {
        Some(Token::Paren { open: false })
    } else if c == LRI {
        Some(Token::Direction(Some(Direction::Lri)))
    } else if c == RLI {
        Some(Token::Direction(Some(Direction::Rli)))
    } else if c == PDI {
        Some(Token::Direction(None))
    } else {
        None
    }
}

/// Splits the input into tokens; the first character that starts none is an
/// error that gives its byte offset.
pub fn tokenize(input: &str) -> (r: Result<Vec<Token>, TokenizeError>)
    ensures
        match r {
            Ok(v) => tokens_from(input@, 0) == Ok::<Seq<Token>, TokenizeError>(v@),
            Err(e) => tokens_from(input@, 0) == Err::<Seq<Token>, TokenizeError>(e),
        },
{
    let ghost cs = input@;
    let n = input.unicode_len();
    let total = input.as_bytes().len();
    let mut out: Vec<Token> = Vec::new();
    let mut i: usize = 0;
    let mut offset: usize = 0;
    assert(cs.take(0) =~= Seq::<char>::empty());
    assert(out@ + seq![] =~= out@);
    while i < n
        invariant
            cs == input@,
            n == cs.len(),
            total == encode_utf8(cs).len(),
            i <= n,
            offset == encode_utf8(cs.take(i as int)).len(),
            tokens_from(cs, 0) == prepend_tokens(out@, tokens_from(cs, i as int)),
        decreases n - i,
    {
        let c = input.get_char(i);
        proof {
            lemma_offset_step(cs, i as int);
        }
        if is_whitespace(c) {
            offset = offset + char_width(c);
            i += 1;
        } else {
            match single_token_of(c) {
                Some(t) => {
                    proof {
                        assert(out@.push(t) =~= out@ + seq![t]);
                        match tokens_from(cs, i + 1) {
                            Ok(s) => {
                                assert(out@ + (seq![t] + s) =~= out@.push(t) + s);
                            },
                            Err(_) => {},
                        }
                    }
                    out.push(t);
                    offset = offset + char_width(c);
                    i += 1;
                },
                None => {
                    if !is_numeric(c) {
                        return Err(TokenizeError { index: offset });
                    }
                    let mut v: u32 = digit_of(c);
                    offset = offset + char_width(c);
                    let mut j: usize = i + 1;
                    assert(number_value(cs, i as int, i as int) == 0);
                    assert(v == number_value(cs, i as int, j as int));
                    while j < n && is_numeric(input.get_char(j))
                        invariant
                            cs == input@,
                            n == cs.len(),
                            total == encode_utf8(cs).len(),
                            i < j <= n,
                            offset == encode_utf8(cs.take(j as int)).len(),
                            v == number_value(cs, i as int, j as int),
                            digits_end(cs, i + 1) == digits_end(cs, j as int),
                        decreases n - j,
                    {
                        let d = input.get_char(j);
                        proof {
                            lemma_offset_step(cs, j as int);
                        }
                        v = v.wrapping_mul(10).wrapping_add(digit_of(d));
                        offset = offset + char_width(d);
                        j += 1;
                    }
                    let t = Token::Number(v as i32);
                    proof {
                        assert(out@.push(t) =~= out@ + seq![t]);
                        match tokens_from(cs, j as int) {
                            Ok(s) => {
                                assert(out@ + (seq![t] + s) =~= out@.push(t) + s);
                            },
                            Err(_) => {},
                        }
                    }
                    out.push(t);
                    i = j;
                },
            }
        }
    }
    assert(out@ + seq![] =~= out@);
    Ok(out)
}

fn digit_of(c: char) -> (r: u32)
    ensures
        r == digit_value(c),
{
    (c as u32).wrapping_sub(0x30)
}


pub open spec fn token_at(ts: Seq<Token>, i: nat) -> Option<Token> {
    if i < ts.len() {
        Some(ts[i as int])
    } else {
        None
    }
}

pub open spec fn is_additive(op: Operator) -> bool {
    op == Operator::Plus || op == Operator::Minus
}

pub open spec fn operation(op: Operator, l: Expression, r: Expression) -> Expression {
    Expression::Operation { operator: op, left: Box::new(l), right: Box::new(r) }
}

/// An expression starting at token `i`, with the position after it.
pub open spec fn parse_expression_at(ts: Seq<Token>, i: nat) -> Result<(Expression, nat), ParseError>
    decreases ts.len() - i, 7nat,
{
    parse_add_at(ts, i)
}

/// Terms joined by `*` and `/`, left to right; these bind loosest.
pub open spec fn parse_add_at(ts: Seq<Token>, i: nat) -> Result<(Expression, nat), ParseError>
    decreases ts.len() - i, 6nat,
{
    match parse_mul_at(ts, i) {
        Ok((l, p)) => if i <= p <= ts.len() {
            add_rest_at(ts, l, p)
        } else {
            Err(ParseError::ExpectedValue)
        },
        Err(e) => Err(e),
    }
}

pub open spec fn add_rest_at(ts: Seq<Token>, left: Expression, p: nat) -> Result<
    (Expression, nat),
    ParseError,
>
    decreases ts.len() - p, 5nat,
{
    match token_at(ts, p) {
        Some(Token::Operator(op)) => if is_additive(op) {
            Ok((left, p))
        } else {
            match parse_mul_at(ts, p + 1) {
                Ok((r, q)) => if p < q <= ts.len() {
                    add_rest_at(ts, operation(op, left, r), q)
                } else {
                    Err(ParseError::ExpectedValue)
                },
                Err(e) => Err(e),
            }
        },
        _ => Ok((left, p)),
    }
}

/// Factors joined by `+` and `-`, left to right; these bind tighter.
pub open spec fn parse_mul_at(ts: Seq<Token>, i: nat) -> Result<(Expression, nat), ParseError>
    decreases ts.len() - i, 4nat,
{
    match parse_direction_at(ts, i) {
        Ok((l, p)) => if i <= p <= ts.len() {
            mul_rest_at(ts, l, p)
        } else {
            Err(ParseError::ExpectedValue)
        },
        Err(e) => Err(e),
    }
}

pub open spec fn mul_rest_at(ts: Seq<Token>, left: Expression, p: nat) -> Result<
    (Expression, nat),
    ParseError,
>
    decreases ts.len() - p, 3nat,
{
    match token_at(ts, p) {
        Some(Token::Operator(op)) => if !is_additive(op) {
            Ok((left, p))
        } else {
            match parse_direction_at(ts, p + 1) {
                Ok((r, q)) => if p < q <= ts.len() {
                    mul_rest_at(ts, operation(op, left, r), q)
                } else {
                    Err(ParseError::ExpectedValue)
                },
                Err(e) => Err(e),
            }
        },
        _ => Ok((left, p)),
    }
}

/// An isolate: its opening mark, an expression, and its end (or the end of
/// input); otherwise a group.
pub open spec fn parse_direction_at(ts: Seq<Token>, i: nat) -> Result<(Expression, nat), ParseError>
    decreases ts.len() - i, 2nat,
{
    match token_at(ts, i) {
        Some(Token::Direction(d)) => match d {
            None => Err(ParseError::ExpectedDirection),
            Some(dir) => match parse_expression_at(ts, i + 1) {
                Ok((e, p)) => match token_at(ts, p) {
                    None => Ok((Expression::Direction { direction: dir, inner: Box::new(e) }, p)),
                    Some(Token::Direction(None)) => Ok(
                        (Expression::Direction { direction: dir, inner: Box::new(e) }, p + 1),
                    ),
                    _ => Err(ParseError::ExpectedIsolateEnd),
                },
                Err(x) => Err(x),
            },
        },
        _ => parse_group_at(ts, i),
    }
}

/// A parenthesised expression, or a number.
pub open spec fn parse_group_at(ts: Seq<Token>, i: nat) -> Result<(Expression, nat), ParseError>
    decreases ts.len() - i, 1nat,
{
    match token_at(ts, i) {
        Some(Token::Paren { open }) => if open {
            match parse_expression_at(ts, i + 1) {
                Ok((e, p)) => match token_at(ts, p) {
                    Some(Token::Paren { open: o }) => if !o {
                        Ok((e, p + 1))
                    } else {
                        Err(ParseError::ExpectedClosingParen)
                    },
                    _ => Err(ParseError::ExpectedClosingParen),
                },
                Err(x) => Err(x),
            }
        } else {
            Err(ParseError::ExpectedValue)
        },
        Some(Token::Number(n)) => Ok((Expression::Value(n), i + 1)),
        _ => Err(ParseError::ExpectedValue),
    }
}

/// The expression with each isolate's direction applied: inside a
/// right-to-left isolate every operation has its operands swapped.
pub open spec fn factored(e: Expression, right_to_left: bool) -> Expression
    decreases e,
{
    match e {
        Expression::Value(v) => Expression::Value(v),
        Expression::Operation { operator, left, right } => {
            let l = factored(*left, right_to_left);
            let r = factored(*right, right_to_left);
            if right_to_left {
                operation(operator, r, l)
            } else {
                operation(operator, l, r)
            }
        },
        Expression::Direction { direction, inner } => factored(
            *inner,
            direction == Direction::Rli,
        ),
    }
}

/// The exec result of a parsing function agrees with its spec counterpart.
pub open spec fn agrees(
    r: Result<(Expression, usize), ParseError>,
    s: Result<(Expression, nat), ParseError>,
) -> bool {
    match r {
        Ok((e, p)) => s == Ok::<(Expression, nat), ParseError>((e, p as nat)),
        Err(x) => s == Err::<(Expression, nat), ParseError>(x),
    }
}

fn parse_expression(ts: &Vec<Token>, i: usize) -> (r: Result<(Expression, usize), ParseError>)
    requires
        i <= ts@.len(),
    ensures
        agrees(r, parse_expression_at(ts@, i as nat)),
        r matches Ok((_, p)) ==> i < p <= ts@.len(),
    decreases ts@.len() - i, 7nat,
{
    parse_add(ts, i)
}

fn parse_add(ts: &Vec<Token>, i: usize) -> (r: Result<(Expression, usize), ParseError>)
    requires
        i <= ts@.len(),
    ensures
        agrees(r, parse_add_at(ts@, i as nat)),
        r matches Ok((_, p)) ==> i < p <= ts@.len(),
    decreases ts@.len() - i, 6nat,
{
    match parse_mul(ts, i) {
        Ok((l, p)) => add_rest(ts, l, p),
        Err(e) => Err(e),
    }
}

fn add_rest(ts: &Vec<Token>, left: Expression, p: usize) -> (r: Result<(Expression, usize), ParseError>)
    requires
        p <= ts@.len(),
    ensures
        agrees(r, add_rest_at(ts@, left, p as nat)),
        r matches Ok((_, q)) ==> p <= q <= ts@.len(),
    decreases ts@.len() - p, 5nat,
{
    if p < ts.len() {
        match ts[p] {
            Token::Operator(op) => {
                if op == Operator::Plus || op == Operator::Minus {
                    return Ok((left, p));
                }
                match parse_mul(ts, p + 1) {
                    Ok((r, q)) => add_rest(
                        ts,
                        Expression::Operation { operator: op, left: Box::new(left), right: Box::new(r) },
                        q,
                    ),
                    Err(e) => Err(e),
                }
            },
            _ => Ok((left, p)),
        }
    } else {
        Ok((left, p))
    }
}

fn parse_mul(ts: &Vec<Token>, i: usize) -> (r: Result<(Expression, usize), ParseError>)
    requires
        i <= ts@.len(),
    ensures
        agrees(r, parse_mul_at(ts@, i as nat)),
        r matches Ok((_, p)) ==> i < p <= ts@.len(),
    decreases ts@.len() - i, 4nat,
{
    match parse_direction(ts, i) {
        Ok((l, p)) => mul_rest(ts, l, p),
        Err(e) => Err(e),
    }
}

fn mul_rest(ts: &Vec<Token>, left: Expression, p: usize) -> (r: Result<(Expression, usize), ParseError>)
    requires
        p <= ts@.len(),
    ensures
        agrees(r, mul_rest_at(ts@, left, p as nat)),
        r matches Ok((_, q)) ==> p <= q <= ts@.len(),
    decreases ts@.len() - p, 3nat,
{
    if p < ts.len() {
        match ts[p] {
            Token::Operator(op) => {
                if !(op == Operator::Plus || op == Operator::Minus) {
                    return Ok((left, p));
                }
                match parse_direction(ts, p + 1) {
                    Ok((r, q)) => mul_rest(
                        ts,
                        Expression::Operation { operator: op, left: Box::new(left), right: Box::new(r) },
                        q,
                    ),
                    Err(e) => Err(e),
                }
            },
            _ => Ok((left, p)),
        }
    } else {
        Ok((left, p))
    }
}

fn parse_direction(ts: &Vec<Token>, i: usize) -> (r: Result<(Expression, usize), ParseError>)
    requires
        i <= ts@.len(),
    ensures
        agrees(r, parse_direction_at(ts@, i as nat)),
        r matches Ok((_, p)) ==> i < p <= ts@.len(),
    decreases ts@.len() - i, 2nat,
{
    if i < ts.len() {
        if let Token::Direction(d) = ts[i] {
            let dir = match d {
                Some(dir) => dir,
                None => return Err(ParseError::ExpectedDirection),
            };
            let (e, p) = match parse_expression(ts, i + 1) {
                Ok(found) => found,
                Err(x) => return Err(x),
            };
            let inner = Expression::Direction { direction: dir, inner: Box::new(e) };
            if p >= ts.len() {
                return Ok((inner, p));
            }
            return match ts[p] {
                Token::Direction(None) => Ok((inner, p + 1)),
                _ => Err(ParseError::ExpectedIsolateEnd),
            };
        }
    }
    parse_group(ts, i)
}

fn parse_group(ts: &Vec<Token>, i: usize) -> (r: Result<(Expression, usize), ParseError>)
    requires
        i <= ts@.len(),
    ensures
        agrees(r, parse_group_at(ts@, i as nat)),
        r matches Ok((_, p)) ==> i < p <= ts@.len(),
    decreases ts@.len() - i, 1nat,
{
    if i >= ts.len() {
        return Err(ParseError::ExpectedValue);
    }
    match ts[i] {
        Token::Paren { open } => {
            if !open {
                return Err(ParseError::ExpectedValue);
            }
            let (e, p) = match parse_expression(ts, i + 1) {
                Ok(found) => found,
                Err(x) => return Err(x),
            };
            if p < ts.len() {
                if let Token::Paren { open: false } = ts[p] {
                    return Ok((e, p + 1));
                }
            }
            Err(ParseError::ExpectedClosingParen)
        },
        Token::Number(n) => Ok((Expression::Value(n), i + 1)),
        _ => Err(ParseError::ExpectedValue),
    }
}

/// Parses one expression from the start of the tokens; tokens after it are
/// left unread.
pub fn parse(tokens: &Vec<Token>) -> (r: Result<Expression, ParseError>)
    ensures
        r == match parse_expression_at(tokens@, 0) {
            Ok((e, _)) => Ok::<Expression, ParseError>(e),
            Err(x) => Err(x),
        },
{
    match parse_expression(tokens, 0) {
        Ok((e, _)) => Ok(e),
        Err(x) => Err(x),
    }
}

fn factor_with(expr: &Expression, right_to_left: bool) -> (r: Expression)
    ensures
        r == factored(*expr, right_to_left),
    decreases expr,
{
    match expr {
        Expression::Value(v) => Expression::Value(*v),
        Expression::Operation { operator, left, right } => {
            let l = factor_with(left, right_to_left);
            let r = factor_with(right, right_to_left);
            if right_to_left {
                Expression::Operation { operator: *operator, left: Box::new(r), right: Box::new(l) }
            } else {
                Expression::Operation { operator: *operator, left: Box::new(l), right: Box::new(r) }
            }
        },
        Expression::Direction { direction, inner } => {
            let rtl = match direction {
                Direction::Lri => false,
                Direction::Rli => true,
            };
            factor_with(inner, rtl)
        },
    }
}

impl Expression {
    /// The same expression read with its isolates' directions made explicit.
    pub fn factor_direction_changes(&self) -> (r: Expression)
        ensures
            r == factored(*self, false),
    {
        factor_with(self, false)
    }
}

} // verus!
