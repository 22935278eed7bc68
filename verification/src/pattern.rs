//! Timestamp patterns: how a moment is written into a snapshot name, and how
//! it is read back.
//!
//! A pattern is written like a `strftime` format. The specifiers are `%Y`
//! (four digits), `%m`, `%d`, `%H`, `%M`, `%S` (two digits each) and `%%` (a
//! percent sign); every other character stands for itself.

use crate::timestamp::Timestamp;
use vstd::prelude::*;

verus! {

/// One element of a pattern.
#[derive(Clone, Copy, Debug, PartialEq, Eq, Structural)]
pub enum Token {
    /// A character that stands for itself.
    Literal(char),
    /// The year, as four digits.
    Year,
    /// The month, as two digits.
    Month,
    /// The day of the month, as two digits.
    Day,
    /// The hour, as two digits.
    Hour,
    /// The minute, as two digits.
    Minute,
    /// The second, as two digits.
    Second,
}

/// Why a format is not a pattern.
#[derive(Clone, Copy, Debug, PartialEq, Eq, Structural)]
pub enum InvalidFormat {
    /// The format ends in a single `%`.
    DanglingPercent,
    /// A `%` is followed by a character that is no specifier.
    UnknownSpecifier,
    /// The format has no specifier of a timestamp field.
    NoSpecifier,
}

/// The token that `%` followed by `c` stands for.
pub open spec fn specifier(c: char) -> Option<Token> {
    if c == 'Y' {
        Some(Token::Year)
    } else if c == 'm' {
        Some(Token::Month)
    } else if c == 'd' {
        Some(Token::Day)
    } else if c == 'H' {
        Some(Token::Hour)
    } else if c == 'M' {
        Some(Token::Minute)
    } else if c == 'S' {
        Some(Token::Second)
    } else if c == '%' {
        Some(Token::Literal('%'))
    } else {
        None
    }
}

/// The tokens that `format` holds from position `i` on.
pub open spec fn tokens_from(format: Seq<char>, i: int) -> Result<Seq<Token>, InvalidFormat>
    decreases format.len() - i,
{
    if i < 0 || i >= format.len() {
        Ok(Seq::empty())
    } else if format[i] != '%' {
        match tokens_from(format, i + 1) {
            Ok(rest) => Ok(seq![Token::Literal(format[i])] + rest),
            Err(e) => Err(e),
        }
    } else if i + 1 >= format.len() {
        Err(InvalidFormat::DanglingPercent)
    } else {
        match specifier(format[i + 1]) {
            None => Err(InvalidFormat::UnknownSpecifier),
            Some(token) => match tokens_from(format, i + 2) {
                Ok(rest) => Ok(seq![token] + rest),
                Err(e) => Err(e),
            },
        }
    }
}

/// Whether a token stands for a field of the timestamp.
pub open spec fn is_field(token: Token) -> bool {
    !(token is Literal)
}

/// Whether any of the tokens stands for a field of the timestamp.
pub open spec fn has_field(tokens: Seq<Token>) -> bool {
    exists|i: int| 0 <= i < tokens.len() && is_field(#[trigger] tokens[i])
}

/// The pattern that `format` describes: its tokens, of which at least one
/// must stand for a field of the timestamp.
pub open spec fn pattern_of(format: Seq<char>) -> Result<Seq<Token>, InvalidFormat> {
    match tokens_from(format, 0) {
        Ok(tokens) => if has_field(tokens) {
            Ok(tokens)
        } else {
            Err(InvalidFormat::NoSpecifier)
        },
        Err(e) => Err(e),
    }
}

/// The character for a decimal digit.
pub open spec fn digit_char(d: int) -> char {
    if d == 0 {
        '0'
    } else if d == 1 {
        '1'
    } else if d == 2 {
        '2'
    } else if d == 3 {
        '3'
    } else if d == 4 {
        '4'
    } else if d == 5 {
        '5'
    } else if d == 6 {
        '6'
    } else if d == 7 {
        '7'
    } else if d == 8 {
        '8'
    } else {
        '9'
    }
}

/// The last `width` decimal digits of `value`, most significant first.
pub open spec fn digits(value: int, width: nat) -> Seq<char>
    decreases width,
{
    if width == 0 {
        Seq::empty()
    } else {
        digits(value / 10, (width - 1) as nat).push(digit_char(value % 10))
    }
}

/// Number of characters that a token takes in a name.
pub open spec fn token_width(token: Token) -> nat {
    match token {
        Token::Literal(_) => 1,
        Token::Year => 4,
        _ => 2,
    }
}

/// Number of characters that the tokens take in a name.
pub open spec fn width(tokens: Seq<Token>) -> nat
    decreases tokens.len(),
{
    if tokens.len() == 0 {
        0
    } else {
        width(tokens.drop_last()) + token_width(tokens.last())
    }
}

/// What a token writes for the moment `t`.
pub open spec fn token_text(token: Token, t: Timestamp) -> Seq<char> {
    match token {
        Token::Literal(c) => seq![c],
        Token::Year => digits(t.year as int, 4),
        Token::Month => digits(t.month as int, 2),
        Token::Day => digits(t.day as int, 2),
        Token::Hour => digits(t.hour as int, 2),
        Token::Minute => digits(t.minute as int, 2),
        Token::Second => digits(t.second as int, 2),
    }
}

/// What the tokens write for the moment `t`.
pub open spec fn render(tokens: Seq<Token>, t: Timestamp) -> Seq<char>
    decreases tokens.len(),
{
    if tokens.len() == 0 {
        Seq::empty()
    } else {
        render(tokens.drop_last(), t) + token_text(tokens.last(), t)
    }
}

/// `String::push` appends the character to the end of the string.
pub assume_specification[ String::push ](s: &mut String, c: char)
    ensures
        final(s)@ == old(s)@.push(c),
;

fn specifier_token(c: char) -> (r: Option<Token>)
    ensures
        r == specifier(c),
{
    if c == 'Y' {
        Some(Token::Year)
    } else if c == 'm' {
        Some(Token::Month)
    } else if c == 'd' {
        Some(Token::Day)
    } else if c == 'H' {
        Some(Token::Hour)
    } else if c == 'M' {
        Some(Token::Minute)
    } else if c == 'S' {
        Some(Token::Second)
    } else if c == '%' {
        Some(Token::Literal('%'))
    } else {
        None
    }
}

fn digit(d: u16) -> (c: char)
    requires
        d < 10,
    ensures
        c == digit_char(d as int),
{
    if d == 0 {
        '0'
    } else if d == 1 {
        '1'
    } else if d == 2 {
        '2'
    } else if d == 3 {
        '3'
    } else if d == 4 {
        '4'
    } else if d == 5 {
        '5'
    } else if d == 6 {
        '6'
    } else if d == 7 {
        '7'
    } else if d == 8 {
        '8'
    } else {
        '9'
    }
}

fn push_two_digits(out: &mut String, value: u16)
    ensures
        final(out)@ == old(out)@ + digits(value as int, 2),
{
    out.push(digit(value / 10 % 10));
    out.push(digit(value % 10));
    proof {
        reveal_with_fuel(digits, 3);
        assert(final(out)@ =~= old(out)@ + digits(value as int, 2));
    }
}

fn push_four_digits(out: &mut String, value: u16)
    ensures
        final(out)@ == old(out)@ + digits(value as int, 4),
{
    out.push(digit(value / 1000 % 10));
    out.push(digit(value / 100 % 10));
    out.push(digit(value / 10 % 10));
    out.push(digit(value % 10));
    proof {
        reveal_with_fuel(digits, 5);
        assert(final(out)@ =~= old(out)@ + digits(value as int, 4));
    }
}

fn push_token(out: &mut String, token: Token, t: &Timestamp)
    ensures
        final(out)@ == old(out)@ + token_text(token, *t),
{
    match token {
        Token::Literal(c) => {
            out.push(c);
            assert(final(out)@ =~= old(out)@ + seq![c]);
        },
        Token::Year => push_four_digits(out, t.year),
        Token::Month => push_two_digits(out, t.month as u16),
        Token::Day => push_two_digits(out, t.day as u16),
        Token::Hour => push_two_digits(out, t.hour as u16),
        Token::Minute => push_two_digits(out, t.minute as u16),
        Token::Second => push_two_digits(out, t.second as u16),
    }
}

/// A compiled format.
#[derive(Debug)]
pub struct Pattern {
    pub tokens: Vec<Token>,
}

impl View for Pattern {
    type V = Seq<Token>;

    open spec fn view(&self) -> Seq<Token> {
        self.tokens@
    }
}

impl Pattern {
    /// Reads a format. It is refused where a `%` is followed by no
    /// specifier, and where it names no field of the timestamp.
    pub fn compile(format: &str) -> (r: Result<Pattern, InvalidFormat>)
        ensures
            match r {
                Ok(p) => pattern_of(format@) == Ok::<Seq<Token>, InvalidFormat>(p@),
                Err(e) => pattern_of(format@) == Err::<Seq<Token>, InvalidFormat>(e),
            },
    {
        let n: usize = format.unicode_len();
        let mut tokens: Vec<Token> = Vec::new();
        let mut seen: bool = false;
        let mut i: usize = 0;
        while i < n
            invariant
                n == format@.len(),
                i <= n,
                seen == has_field(tokens@),
                tokens_from(format@, 0) == match tokens_from(format@, i as int) {
                    Ok(rest) => Ok::<Seq<Token>, InvalidFormat>(tokens@ + rest),
                    Err(e) => Err(e),
                },
            decreases n - i,
        {
            let ghost before = tokens@;
            let c: char = format.get_char(i);
            let token: Token;
            let next: usize;
            if c != '%' {
                token = Token::Literal(c);
                next = i + 1;
            } else if i + 1 >= n {
                return Err(InvalidFormat::DanglingPercent);
            } else {
                match specifier_token(format.get_char(i + 1)) {
                    None => {
                        return Err(InvalidFormat::UnknownSpecifier);
                    },
                    Some(found) => {
                        token = found;
                        next = i + 2;
                    },
                }
            }
            tokens.push(token);
            proof {
                match tokens_from(format@, next as int) {
                    Ok(rest) => {
                        assert(before + (seq![token] + rest) =~= before.push(token) + rest);
                    },
                    Err(e) => {},
                }
                if seen {
                    let w = choose|j: int| 0 <= j < before.len() && is_field(#[trigger] before[j]);
                    assert(is_field(tokens@[w]));
                } else if is_field(token) {
                    assert(is_field(tokens@[before.len() as int]));
                } else {
                    assert forall|j: int| 0 <= j < tokens@.len() implies !is_field(
                        #[trigger] tokens@[j],
                    ) by {
                        if j < before.len() {
                            assert(tokens@[j] == before[j]);
                        }
                    }
                }
            }
            seen = seen || !matches!(token, Token::Literal(_));
            i = next;
        }
        assert(tokens@ + Seq::<Token>::empty() =~= tokens@);
        if seen {
            Ok(Pattern { tokens })
        } else {
            Err(InvalidFormat::NoSpecifier)
        }
    }

    /// Writes the moment `t` as the pattern says.
    pub fn render(&self, t: &Timestamp) -> (r: String)
        ensures
            r@ == render(self@, *t),
    {
        let mut out: String = String::new();
        let mut k: usize = 0;
        while k < self.tokens.len()
            invariant
                k <= self.tokens.len(),
                out@ == render(self@.take(k as int), *t),
            decreases self.tokens.len() - k,
        {
            push_token(&mut out, self.tokens[k], t);
            proof {
                assert(self@.take(k + 1).drop_last() =~= self@.take(k as int));
            }
            k = k + 1;
        }
        assert(self@.take(k as int) =~= self@);
        out
    }
}

} // verus!
