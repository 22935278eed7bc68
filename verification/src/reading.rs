//! Reading a timestamp back from the text that a pattern wrote.

use crate::pattern::{digit_char, digits, render, token_text, token_width, width, Pattern, Token};
use crate::timestamp::{is_valid_moment, Timestamp};
use vstd::prelude::*;

verus! {

/// The fields of a timestamp that have been read so far.
#[derive(Clone, Copy, Debug, PartialEq, Eq, Structural)]
pub struct Fields {
    pub year: Option<u16>,
    pub month: Option<u16>,
    pub day: Option<u16>,
    pub hour: Option<u16>,
    pub minute: Option<u16>,
    pub second: Option<u16>,
}

/// The value of a decimal digit.
pub open spec fn digit_value(c: char) -> Option<int> {
    if c == '0' {
        Some(0)
    } else if c == '1' {
        Some(1)
    } else if c == '2' {
        Some(2)
    } else if c == '3' {
        Some(3)
    } else if c == '4' {
        Some(4)
    } else if c == '5' {
        Some(5)
    } else if c == '6' {
        Some(6)
    } else if c == '7' {
        Some(7)
    } else if c == '8' {
        Some(8)
    } else if c == '9' {
        Some(9)
    } else {
        None
    }
}

/// The number that `s` writes in decimal digits, if it holds nothing else.
pub open spec fn number(s: Seq<char>) -> Option<int>
    decreases s.len(),
{
    if s.len() == 0 {
        Some(0)
    } else {
        match (number(s.drop_last()), digit_value(s.last())) {
            (Some(high), Some(low)) => Some(10 * high + low),
            _ => None,
        }
    }
}

/// Ten to the power of `n`.
pub open spec fn power_of_ten(n: nat) -> int
    decreases n,
{
    if n == 0 {
        1
    } else {
        10 * power_of_ten((n - 1) as nat)
    }
}

impl Fields {
    /// No field read yet.
    pub open spec fn none() -> Fields {
        Fields { year: None, month: None, day: None, hour: None, minute: None, second: None }
    }

    /// The value read for the field that `token` stands for.
    pub open spec fn get(self, token: Token) -> Option<u16> {
        match token {
            Token::Literal(_) => None,
            Token::Year => self.year,
            Token::Month => self.month,
            Token::Day => self.day,
            Token::Hour => self.hour,
            Token::Minute => self.minute,
            Token::Second => self.second,
        }
    }

    /// These fields, with `value` for the field that `token` stands for.
    pub open spec fn with(self, token: Token, value: u16) -> Fields {
        match token {
            Token::Literal(_) => self,
            Token::Year => Fields { year: Some(value), ..self },
            Token::Month => Fields { month: Some(value), ..self },
            Token::Day => Fields { day: Some(value), ..self },
            Token::Hour => Fields { hour: Some(value), ..self },
            Token::Minute => Fields { minute: Some(value), ..self },
            Token::Second => Fields { second: Some(value), ..self },
        }
    }

    fn empty() -> (r: Fields)
        ensures
            r == Fields::none(),
    {
        Fields { year: None, month: None, day: None, hour: None, minute: None, second: None }
    }

    fn value_of(&self, token: Token) -> (r: Option<u16>)
        ensures
            r == self.get(token),
    {
        match token {
            Token::Literal(_) => None,
            Token::Year => self.year,
            Token::Month => self.month,
            Token::Day => self.day,
            Token::Hour => self.hour,
            Token::Minute => self.minute,
            Token::Second => self.second,
        }
    }

    fn set(&self, token: Token, value: u16) -> (r: Fields)
        ensures
            r == self.with(token, value),
    {
        let mut next: Fields = *self;
        match token {
            Token::Literal(_) => {},
            Token::Year => {
                next.year = Some(value);
            },
            Token::Month => {
                next.month = Some(value);
            },
            Token::Day => {
                next.day = Some(value);
            },
            Token::Hour => {
                next.hour = Some(value);
            },
            Token::Minute => {
                next.minute = Some(value);
            },
            Token::Second => {
                next.second = Some(value);
            },
        }
        next
    }
}

/// The fields after `piece`, the characters that stand where `token` wrote,
/// has been read: a literal must be found as it is, a field must be written
/// in digits and must not differ from an earlier reading of the same field.
pub open spec fn absorb(fields: Fields, token: Token, piece: Seq<char>) -> Option<Fields> {
    match token {
        Token::Literal(c) => if piece =~= seq![c] {
            Some(fields)
        } else {
            None
        },
        _ => match number(piece) {
            Some(value) => if fields.get(token) is None || fields.get(token) == Some(
                value as u16,
            ) {
                Some(fields.with(token, value as u16))
            } else {
                None
            },
            None => None,
        },
    }
}

/// The fields that the tokens find in `text`, which they must cover from its
/// first character to its last.
pub open spec fn scan(tokens: Seq<Token>, text: Seq<char>) -> Option<Fields>
    decreases tokens.len(),
{
    if tokens.len() == 0 {
        if text.len() == 0 {
            Some(Fields::none())
        } else {
            None
        }
    } else {
        let cut = text.len() - token_width(tokens.last());
        if cut < 0 {
            None
        } else {
            match scan(tokens.drop_last(), text.take(cut)) {
                Some(fields) => absorb(fields, tokens.last(), text.skip(cut)),
                None => None,
            }
        }
    }
}

/// The value of a field, or `default` where it was not read.
pub open spec fn or_default(slot: Option<u16>, default: u16) -> u16 {
    match slot {
        Some(value) => value,
        None => default,
    }
}

/// The moment that the fields name. A field that was not read counts as the
/// first of January of the year 0, at midnight.
pub open spec fn moment(fields: Fields) -> Option<Timestamp> {
    let year = or_default(fields.year, 0);
    let month = or_default(fields.month, 1);
    let day = or_default(fields.day, 1);
    let hour = or_default(fields.hour, 0);
    let minute = or_default(fields.minute, 0);
    let second = or_default(fields.second, 0);
    if is_valid_moment(
        year as int,
        month as int,
        day as int,
        hour as int,
        minute as int,
        second as int,
    ) {
        Some(
            Timestamp {
                year,
                month: month as u8,
                day: day as u8,
                hour: hour as u8,
                minute: minute as u8,
                second: second as u8,
            },
        )
    } else {
        None
    }
}

/// The moment that `text` names under the tokens, if it names one.
pub open spec fn parse(tokens: Seq<Token>, text: Seq<char>) -> Option<Timestamp> {
    match scan(tokens, text) {
        Some(fields) => moment(fields),
        None => None,
    }
}

/// A number of `n` digits is below the `n`-th power of ten.
pub proof fn lemma_number_bound(s: Seq<char>)
    ensures
        number(s) matches Some(v) ==> 0 <= v < power_of_ten(s.len()),
    decreases s.len(),
{
    if s.len() > 0 {
        lemma_number_bound(s.drop_last());
    }
}

/// Text that the tokens can be found in is as long as what they write.
pub proof fn lemma_scan_width(tokens: Seq<Token>, text: Seq<char>)
    requires
        scan(tokens, text) is Some,
    ensures
        text.len() == width(tokens),
    decreases tokens.len(),
{
    if tokens.len() > 0 {
        let cut = text.len() - token_width(tokens.last());
        lemma_scan_width(tokens.drop_last(), text.take(cut));
    }
}

/// The first tokens take no more room than all of them.
pub proof fn lemma_width_take(tokens: Seq<Token>, k: int)
    requires
        0 <= k <= tokens.len(),
    ensures
        width(tokens.take(k)) <= width(tokens),
        k < tokens.len() ==> width(tokens.take(k + 1)) == width(tokens.take(k)) + token_width(
            tokens[k],
        ),
    decreases tokens.len() - k,
{
    if k < tokens.len() {
        assert(tokens.take(k + 1).drop_last() =~= tokens.take(k));
        lemma_width_take(tokens, k + 1);
    } else {
        assert(tokens.take(k) =~= tokens);
    }
}

/// The value that stands for a field: `value` where one of the tokens names
/// the field, nothing where none does.
pub open spec fn slot(tokens: Seq<Token>, field: Token, value: u16) -> Option<u16> {
    if tokens.contains(field) {
        Some(value)
    } else {
        None
    }
}

/// The fields of `t` that the tokens name.
pub open spec fn fields_of(tokens: Seq<Token>, t: Timestamp) -> Fields {
    Fields {
        year: slot(tokens, Token::Year, t.year),
        month: slot(tokens, Token::Month, t.month as u16),
        day: slot(tokens, Token::Day, t.day as u16),
        hour: slot(tokens, Token::Hour, t.hour as u16),
        minute: slot(tokens, Token::Minute, t.minute as u16),
        second: slot(tokens, Token::Second, t.second as u16),
    }
}

/// The moment `t` as far as the tokens can write it: a field that none of
/// them names is set back to the first of January of the year 0, at midnight.
pub open spec fn at_resolution(tokens: Seq<Token>, t: Timestamp) -> Timestamp {
    Timestamp {
        year: if tokens.contains(Token::Year) {
            t.year
        } else {
            0
        },
        month: if tokens.contains(Token::Month) {
            t.month
        } else {
            1
        },
        day: if tokens.contains(Token::Day) {
            t.day
        } else {
            1
        },
        hour: if tokens.contains(Token::Hour) {
            t.hour
        } else {
            0
        },
        minute: if tokens.contains(Token::Minute) {
            t.minute
        } else {
            0
        },
        second: if tokens.contains(Token::Second) {
            t.second
        } else {
            0
        },
    }
}

/// Whether every field that was read has the value that `t` has for it.
pub open spec fn agrees(fields: Fields, t: Timestamp) -> bool {
    &&& fields.year matches Some(v) ==> v == t.year
    &&& fields.month matches Some(v) ==> v == t.month
    &&& fields.day matches Some(v) ==> v == t.day
    &&& fields.hour matches Some(v) ==> v == t.hour
    &&& fields.minute matches Some(v) ==> v == t.minute
    &&& fields.second matches Some(v) ==> v == t.second
}

/// Digits that were written for a number read back as that number.
pub proof fn lemma_number_of_digits(value: int, count: nat)
    requires
        0 <= value < power_of_ten(count),
    ensures
        digits(value, count).len() == count,
        number(digits(value, count)) == Some(value),
    decreases count,
{
    if count > 0 {
        lemma_number_of_digits(value / 10, (count - 1) as nat);
        assert(digits(value, count).drop_last() =~= digits(value / 10, (count - 1) as nat));
    }
}

/// Text that reads as a number is what is written for that number.
pub proof fn lemma_digits_of_number(s: Seq<char>)
    ensures
        number(s) matches Some(v) ==> digits(v, s.len()) == s,
    decreases s.len(),
{
    if s.len() > 0 {
        lemma_digits_of_number(s.drop_last());
        if number(s) is Some {
            let high = number(s.drop_last())->0;
            let low = digit_value(s.last())->0;
            assert((10 * high + low) / 10 == high);
            assert((10 * high + low) % 10 == low);
            assert(digit_char(low) == s.last());
            assert(s.drop_last().push(s.last()) =~= s);
        }
    }
}

/// A token is among some tokens where it is the last or among the others.
pub proof fn lemma_contains_last(tokens: Seq<Token>, token: Token)
    requires
        tokens.len() > 0,
    ensures
        tokens.contains(token) <==> (tokens.drop_last().contains(token) || tokens.last()
            == token),
{
    let init = tokens.drop_last();
    if tokens.contains(token) {
        let i = choose|i: int| 0 <= i < tokens.len() && tokens[i] == token;
        if i < init.len() {
            assert(init[i] == token);
        }
    }
    if init.contains(token) {
        let i = choose|i: int| 0 <= i < init.len() && init[i] == token;
        assert(tokens[i] == token);
    }
    if tokens.last() == token {
        assert(tokens[tokens.len() - 1] == token);
    }
}

proof fn lemma_contains_last_each(tokens: Seq<Token>)
    requires
        tokens.len() > 0,
    ensures
        forall|token: Token| #[trigger]
            tokens.contains(token) <==> (tokens.drop_last().contains(token) || tokens.last()
                == token),
{
    assert forall|token: Token| #[trigger]
        tokens.contains(token) <==> (tokens.drop_last().contains(token) || tokens.last()
            == token) by {
        lemma_contains_last(tokens, token);
    }
}

/// Reading what the tokens wrote for a moment finds the fields that they
/// name, with the values that the moment has.
pub proof fn lemma_scan_render(tokens: Seq<Token>, t: Timestamp)
    requires
        t.wf(),
    ensures
        render(tokens, t).len() == width(tokens),
        scan(tokens, render(tokens, t)) == Some(fields_of(tokens, t)),
    decreases tokens.len(),
{
    if tokens.len() == 0 {
        assert(fields_of(tokens, t) == Fields::none());
    } else {
        let init = tokens.drop_last();
        let last = tokens.last();
        let text = render(tokens, t);
        lemma_scan_render(init, t);
        reveal_with_fuel(power_of_ten, 5);
        match last {
            Token::Literal(_) => {},
            Token::Year => lemma_number_of_digits(t.year as int, 4),
            Token::Month => lemma_number_of_digits(t.month as int, 2),
            Token::Day => lemma_number_of_digits(t.day as int, 2),
            Token::Hour => lemma_number_of_digits(t.hour as int, 2),
            Token::Minute => lemma_number_of_digits(t.minute as int, 2),
            Token::Second => lemma_number_of_digits(t.second as int, 2),
        }
        let cut = text.len() - token_width(last);
        assert(text.take(cut) =~= render(init, t));
        assert(text.skip(cut) =~= token_text(last, t));
        lemma_contains_last_each(tokens);
    }
}

/// Where the tokens find fields in a text, they write that text for every
/// moment that has those fields, and the fields found are the ones they name.
pub proof fn lemma_scan_sound(tokens: Seq<Token>, text: Seq<char>, t: Timestamp)
    requires
        scan(tokens, text) matches Some(fields) && agrees(fields, t),
    ensures
        render(tokens, t) == text,
        scan(tokens, text) == Some(fields_of(tokens, t)),
    decreases tokens.len(),
{
    if tokens.len() == 0 {
        assert(render(tokens, t) =~= text);
        assert(fields_of(tokens, t) == Fields::none());
    } else {
        let init = tokens.drop_last();
        let last = tokens.last();
        let cut = text.len() - token_width(last);
        let piece = text.skip(cut);
        let earlier = scan(init, text.take(cut))->0;
        lemma_number_bound(piece);
        lemma_digits_of_number(piece);
        reveal_with_fuel(power_of_ten, 5);
        assert(agrees(earlier, t));
        lemma_scan_sound(init, text.take(cut), t);
        lemma_contains_last_each(tokens);
        assert(token_text(last, t) =~= piece);
        assert(text.take(cut) + piece =~= text);
    }
}

/// Round trip: what a pattern writes for a moment reads back as that moment,
/// as far as the pattern can write it.
pub proof fn lemma_parse_render(tokens: Seq<Token>, t: Timestamp)
    requires
        t.wf(),
    ensures
        parse(tokens, render(tokens, t)) == Some(at_resolution(tokens, t)),
        at_resolution(tokens, t).wf(),
{
    lemma_scan_render(tokens, t);
}

/// A text reads as a moment only where the pattern writes that very text for
/// it, and the moment read holds nothing that the pattern cannot write.
pub proof fn lemma_parse_sound(tokens: Seq<Token>, text: Seq<char>)
    ensures
        parse(tokens, text) matches Some(t) ==> t.wf() && render(tokens, t) == text
            && at_resolution(tokens, t) == t,
{
    if parse(tokens, text) is Some {
        let t = parse(tokens, text)->0;
        let fields = scan(tokens, text)->0;
        assert(agrees(fields, t));
        lemma_scan_sound(tokens, text, t);
    }
}

fn digit_of(c: char) -> (r: Option<u16>)
    ensures
        match r {
            Some(d) => digit_value(c) == Some(d as int),
            None => digit_value(c) is None,
        },
{
    if c == '0' {
        Some(0)
    } else if c == '1' {
        Some(1)
    } else if c == '2' {
        Some(2)
    } else if c == '3' {
        Some(3)
    } else if c == '4' {
        Some(4)
    } else if c == '5' {
        Some(5)
    } else if c == '6' {
        Some(6)
    } else if c == '7' {
        Some(7)
    } else if c == '8' {
        Some(8)
    } else if c == '9' {
        Some(9)
    } else {
        None
    }
}

fn token_len(token: Token) -> (r: usize)
    ensures
        r == token_width(token),
        1 <= r <= 4,
{
    match token {
        Token::Literal(_) => 1,
        Token::Year => 4,
        _ => 2,
    }
}

fn read_number(text: &str, from: usize, count: usize) -> (r: Option<u16>)
    requires
        count <= 4,
        from + count <= text@.len() <= usize::MAX,
    ensures
        match r {
            Some(v) => number(text@.subrange(from as int, from + count)) == Some(v as int),
            None => number(text@.subrange(from as int, from + count)) is None,
        },
{
    let ghost piece = text@.subrange(from as int, from + count);
    let mut value: Option<u16> = Some(0);
    let mut j: usize = 0;
    while j < count
        invariant
            j <= count <= 4,
            from + count <= text@.len() <= usize::MAX,
            piece == text@.subrange(from as int, from + count),
            match value {
                Some(v) => number(piece.take(j as int)) == Some(v as int),
                None => number(piece.take(j as int)) is None,
            },
        decreases count - j,
    {
        let c: char = text.get_char(from + j);
        proof {
            assert(piece.take(j + 1).drop_last() =~= piece.take(j as int));
            assert(piece.take(j + 1).last() == c);
            lemma_number_bound(piece.take(j as int));
            reveal_with_fuel(power_of_ten, 5);
        }
        value =
        match (value, digit_of(c)) {
            (Some(high), Some(low)) => Some(10 * high + low),
            _ => None,
        };
        j = j + 1;
    }
    assert(piece.take(j as int) =~= piece);
    value
}

fn read_token(fields: &Fields, token: Token, text: &str, from: usize) -> (r: Option<Fields>)
    requires
        from + token_width(token) <= text@.len() <= usize::MAX,
    ensures
        r == absorb(*fields, token, text@.subrange(from as int, from + token_width(token))),
{
    match token {
        Token::Literal(c) => {
            let found: char = text.get_char(from);
            assert(text@.subrange(from as int, from + 1)[0] == found);
            if found == c {
                Some(*fields)
            } else {
                None
            }
        },
        _ => match read_number(text, from, token_len(token)) {
            Some(value) => {
                let earlier: Option<u16> = fields.value_of(token);
                let agrees: bool = match earlier {
                    None => true,
                    Some(v) => v == value,
                };
                if agrees {
                    Some(fields.set(token, value))
                } else {
                    None
                }
            },
            None => None,
        },
    }
}

fn finish(fields: &Fields) -> (r: Option<Timestamp>)
    ensures
        r == moment(*fields),
{
    let year: u16 = match fields.year {
        Some(v) => v,
        None => 0,
    };
    let month: u16 = match fields.month {
        Some(v) => v,
        None => 1,
    };
    let day: u16 = match fields.day {
        Some(v) => v,
        None => 1,
    };
    let hour: u16 = match fields.hour {
        Some(v) => v,
        None => 0,
    };
    let minute: u16 = match fields.minute {
        Some(v) => v,
        None => 0,
    };
    let second: u16 = match fields.second {
        Some(v) => v,
        None => 0,
    };
    if month > 12 || day > 31 || hour > 23 || minute > 59 || second > 59 {
        None
    } else {
        Timestamp::new(year, month as u8, day as u8, hour as u8, minute as u8, second as u8)
    }
}

impl Pattern {
    /// Reads the moment that `text` names under the pattern: the one moment
    /// that the pattern writes as `text` and that holds nothing the pattern
    /// cannot write. Where the pattern writes `text` for no moment, there is
    /// none.
    pub fn parse(&self, text: &str) -> (r: Option<Timestamp>)
        ensures
            r == parse(self@, text@),
            r matches Some(t) ==> t.wf() && render(self@, t) == text@ && at_resolution(self@, t)
                == t,
            r is None ==> forall|t: Timestamp| t.wf() ==> #[trigger] render(self@, t) != text@,
    {
        let r: Option<Timestamp> = self.read(text);
        proof {
            lemma_parse_sound(self@, text@);
            assert forall|t: Timestamp| t.wf() && r is None implies #[trigger] render(self@, t)
                != text@ by {
                lemma_parse_render(self@, t);
            }
        }
        r
    }

    fn read(&self, text: &str) -> (r: Option<Timestamp>)
        ensures
            r == parse(self@, text@),
    {
        let n: usize = text.unicode_len();
        let count: usize = self.tokens.len();
        let mut total: usize = 0;
        let mut k: usize = 0;
        while k < count
            invariant
                k <= count == self@.len(),
                n == text@.len(),
                total == width(self@.take(k as int)),
                total <= n,
            decreases count - k,
        {
            let step: usize = token_len(self.tokens[k]);
            proof {
                lemma_width_take(self@, k as int);
            }
            if step > n - total {
                proof {
                    lemma_width_take(self@, k + 1);
                    if scan(self@, text@) is Some {
                        lemma_scan_width(self@, text@);
                    }
                }
                return None;
            }
            total = total + step;
            k = k + 1;
        }
        assert(self@.take(k as int) =~= self@);
        if total != n {
            proof {
                if scan(self@, text@) is Some {
                    lemma_scan_width(self@, text@);
                }
            }
            return None;
        }
        let mut state: Option<Fields> = Some(Fields::empty());
        let mut from: usize = 0;
        k = 0;
        assert(self@.take(0) =~= Seq::<Token>::empty());
        while k < count
            invariant
                k <= count == self@.len(),
                n == text@.len() == width(self@),
                from == width(self@.take(k as int)),
                from <= n,
                state == scan(self@.take(k as int), text@.take(from as int)),
            decreases count - k,
        {
            let token: Token = self.tokens[k];
            let step: usize = token_len(token);
            proof {
                lemma_width_take(self@, k as int);
                lemma_width_take(self@, k + 1);
                assert(self@.take(k + 1).drop_last() =~= self@.take(k as int));
                assert(text@.take(from + step).take(from as int) =~= text@.take(from as int));
                assert(text@.take(from + step).skip(from as int) =~= text@.subrange(
                    from as int,
                    from + step,
                ));
            }
            state =
            match state {
                Some(fields) => read_token(&fields, token, text, from),
                None => None,
            };
            from = from + step;
            k = k + 1;
        }
        assert(self@.take(k as int) =~= self@);
        assert(text@.take(from as int) =~= text@);
        match state {
            Some(fields) => finish(&fields),
            None => None,
        }
    }
}

} // verus!
