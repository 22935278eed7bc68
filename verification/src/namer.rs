//! Snapshot names: a prefix, a hyphen, and the moment the snapshot was taken.

use crate::pattern::{pattern_of, render, InvalidFormat, Pattern, Token};
use crate::reading::{at_resolution, lemma_parse_render, parse};
use crate::timestamp::Timestamp;
use vstd::prelude::*;

verus! {

/// The character between the prefix and the timestamp.
pub const SEPARATOR: char = '-';

/// Why a name is not that of a snapshot.
#[derive(Clone, Copy, Debug, PartialEq, Eq, Structural)]
pub enum NameParseError {
    /// The name does not start with the prefix and the separator.
    Prefix,
    /// What follows the prefix and the separator names no moment.
    Timestamp,
}

/// The name of the snapshot taken at `t`.
pub open spec fn name_of(prefix: Seq<char>, tokens: Seq<Token>, t: Timestamp) -> Seq<char> {
    prefix.push(SEPARATOR) + render(tokens, t)
}

/// The moment at which the snapshot called `name` was taken.
pub open spec fn created_at(prefix: Seq<char>, tokens: Seq<Token>, name: Seq<char>) -> Result<
    Timestamp,
    NameParseError,
> {
    let head = prefix.push(SEPARATOR);
    if !head.is_prefix_of(name) {
        Err(NameParseError::Prefix)
    } else {
        match parse(tokens, name.skip(head.len() as int)) {
            Some(t) => Ok(t),
            None => Err(NameParseError::Timestamp),
        }
    }
}

/// Round trip: the name given to a snapshot taken at `t` reads back as `t`,
/// as far as the pattern can write it.
pub proof fn lemma_name_round_trip(prefix: Seq<char>, tokens: Seq<Token>, t: Timestamp)
    requires
        t.wf(),
    ensures
        created_at(prefix, tokens, name_of(prefix, tokens, t)) == Ok::<Timestamp, NameParseError>(
            at_resolution(tokens, t),
        ),
{
    let head = prefix.push(SEPARATOR);
    let name = name_of(prefix, tokens, t);
    assert(name.subrange(0, head.len() as int) =~= head);
    assert(name.skip(head.len() as int) =~= render(tokens, t));
    lemma_parse_render(tokens, t);
}

/// Round trip, for a pattern that names every field: the name given to a
/// snapshot taken at `t` reads back as `t` itself.
pub proof fn lemma_name_round_trip_exact(prefix: Seq<char>, tokens: Seq<Token>, t: Timestamp)
    requires
        t.wf(),
        tokens.contains(Token::Year),
        tokens.contains(Token::Month),
        tokens.contains(Token::Day),
        tokens.contains(Token::Hour),
        tokens.contains(Token::Minute),
        tokens.contains(Token::Second),
    ensures
        created_at(prefix, tokens, name_of(prefix, tokens, t)) == Ok::<Timestamp, NameParseError>(
            t,
        ),
{
    lemma_name_round_trip(prefix, tokens, t);
}

/// How the snapshots of one subvolume are named.
#[derive(Debug)]
pub struct Namer {
    pub prefix: String,
    pub pattern: Pattern,
}

impl Namer {
    /// The naming with the given prefix and format.
    pub fn new(prefix: &str, format: &str) -> (r: Result<Namer, InvalidFormat>)
        ensures
            match r {
                Ok(namer) => namer.prefix@ == prefix@ && pattern_of(format@) == Ok::<
                    Seq<Token>,
                    InvalidFormat,
                >(namer.pattern@),
                Err(e) => pattern_of(format@) == Err::<Seq<Token>, InvalidFormat>(e),
            },
    {
        match Pattern::compile(format) {
            Ok(pattern) => Ok(Namer { prefix: String::from_str(prefix), pattern }),
            Err(e) => Err(e),
        }
    }

    /// The name of the snapshot taken at `now`.
    pub fn name(&self, now: &Timestamp) -> (r: String)
        ensures
            r@ == name_of(self.prefix@, self.pattern@, *now),
    {
        let mut out: String = self.prefix.clone();
        out.push(SEPARATOR);
        let stamp: String = self.pattern.render(now);
        out.append(stamp.as_str());
        out
    }

    /// The moment at which the snapshot called `name` was taken.
    pub fn parse(&self, name: &str) -> (r: Result<Timestamp, NameParseError>)
        ensures
            r == created_at(self.prefix@, self.pattern@, name@),
            r matches Ok(t) ==> t.wf() && name@ == name_of(self.prefix@, self.pattern@, t),
    {
        let ghost head = self.prefix@.push(SEPARATOR);
        let prefix: &str = self.prefix.as_str();
        let m: usize = prefix.unicode_len();
        let n: usize = name.unicode_len();
        if n <= m {
            return Err(NameParseError::Prefix);
        }
        let mut i: usize = 0;
        while i < m
            invariant
                i <= m < n,
                m == prefix@.len(),
                n == name@.len(),
                prefix@ == self.prefix@,
                head == self.prefix@.push(SEPARATOR),
                forall|j: int| 0 <= j < i ==> name@[j] == prefix@[j],
            decreases m - i,
        {
            if name.get_char(i) != prefix.get_char(i) {
                proof {
                    if head.is_prefix_of(name@) {
                        assert(name@.subrange(0, head.len() as int)[i as int] == head[i as int]);
                    }
                }
                return Err(NameParseError::Prefix);
            }
            i = i + 1;
        }
        if name.get_char(m) != SEPARATOR {
            proof {
                if head.is_prefix_of(name@) {
                    assert(name@.subrange(0, head.len() as int)[m as int] == head[m as int]);
                }
            }
            return Err(NameParseError::Prefix);
        }
        assert(name@.subrange(0, head.len() as int) =~= head);
        let rest: &str = name.substring_char(m + 1, n);
        assert(rest@ =~= name@.skip(head.len() as int));
        match self.pattern.parse(rest) {
            Some(t) => {
                assert(name@ =~= head + rest@);
                Ok(t)
            },
            None => Err(NameParseError::Timestamp),
        }
    }
}

/// The name of the snapshot taken at `now`, for the given prefix and format.
pub fn snapshot_name(prefix: &str, format: &str, now: &Timestamp) -> (r: Result<
    String,
    InvalidFormat,
>)
    ensures
        match r {
            Ok(name) => pattern_of(format@) matches Ok(tokens) && name@ == name_of(
                prefix@,
                tokens,
                *now,
            ),
            Err(e) => pattern_of(format@) == Err::<Seq<Token>, InvalidFormat>(e),
        },
{
    match Namer::new(prefix, format) {
        Ok(namer) => Ok(namer.name(now)),
        Err(e) => Err(e),
    }
}

} // verus!
