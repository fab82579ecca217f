//! The tokenizer: the notation's words, numbers and signs, read off the bytes
//! of the input from left to right.
//!
//! Blanks separate tokens and mean nothing else. A word is recognised as far
//! as it reaches, so `1mile` reads like `1 mile`. The list of tokens always
//! ends in [`TokenKind::End`], or in [`TokenKind::Invalid`] at the first byte
//! that starts no token.

use crate::models::{Decimal, HeartRateZone, LengthUnit, TimeUnit, MAX_MANTISSA, MAX_SCALE};
use vstd::prelude::*;
use vstd::string::StringSliceAdditionalSpecFns;

verus! {

/// What a token is.
#[derive(Clone, Copy, Debug, PartialEq, Eq)]
pub enum TokenKind {
    /// A number: digits, and after a point more digits. `integer` tells
    /// that it has no point; `value` is absent where the number is too large
    /// or has too many decimal places for a [`Decimal`].
    Number { integer: bool, value: Option<Decimal> },
    /// A time as minutes, a colon and seconds, in seconds; absent where it
    /// is too large for a [`Decimal`].
    Time(Option<Decimal>),
    /// The name of a unit of distance.
    Length(LengthUnit),
    /// The name of a unit of time.
    Duration(TimeUnit),
    /// The name of a heart-rate zone.
    Zone(HeartRateZone),
    /// The word `warmup`.
    Warmup,
    /// The word `cooldown`.
    Cooldown,
    /// The word `recovery`.
    Recovery,
    /// The letter `x` between a repeat count and its group.
    Times,
    /// The sign `+`.
    Plus,
    /// The sign `(`.
    Open,
    /// The sign `)`.
    Close,
    /// The sign `@`.
    At,
    /// The sign `-`.
    Dash,
    /// The sign `/`.
    Slash,
    /// The end of the input.
    End,
    /// A byte that starts no token.
    Invalid,
}

/// A token and the bytes of the input it was read from: `start` is the
/// offset of its first byte, `end` the offset after its last.
#[derive(Clone, Copy, Debug, PartialEq, Eq)]
pub struct Token {
    pub kind: TokenKind,
    pub start: usize,
    pub end: usize,
}

/// Whether `byte` is a blank: a space, a tab, a line feed or a carriage
/// return.
pub open spec fn spec_is_blank(byte: u8) -> bool {
    byte == 32 || byte == 9 || byte == 10 || byte == 13
}

/// Whether `byte` is one of the digits `0` to `9`.
pub open spec fn spec_is_digit(byte: u8) -> bool {
    48 <= byte <= 57
}

/// Whether the byte at `pos` is `byte`.
pub open spec fn spec_byte_is(input: Seq<u8>, pos: int, byte: u8) -> bool {
    0 <= pos < input.len() && input[pos] == byte
}

/// The first offset from `pos` on that holds no blank.
pub open spec fn spec_skip_blanks(input: Seq<u8>, pos: int) -> int
    decreases input.len() - pos,
{
    if 0 <= pos < input.len() && spec_is_blank(input[pos]) {
        spec_skip_blanks(input, pos + 1)
    } else {
        pos
    }
}

/// The first offset from `pos` on that holds no digit.
pub open spec fn spec_digits_end(input: Seq<u8>, pos: int) -> int
    decreases input.len() - pos,
{
    if 0 <= pos < input.len() && spec_is_digit(input[pos]) {
        spec_digits_end(input, pos + 1)
    } else {
        pos
    }
}

/// The number that a run of digits writes in base ten.
pub open spec fn spec_digits_value(digits: Seq<u8>) -> nat
    decreases digits.len(),
{
    if digits.len() == 0 {
        0
    } else {
        10 * spec_digits_value(digits.drop_last()) + (digits.last() - 48) as nat
    }
}

/// The decimal `mantissa / 10^scale`, where a [`Decimal`] can hold it.
pub open spec fn spec_decimal(mantissa: nat, scale: nat) -> Option<Decimal> {
    if Decimal::representable(mantissa, scale) {
        Some(Decimal::from_parts(mantissa, scale))
    } else {
        None
    }
}

/// Whether the bytes of `word` stand at `pos`.
pub open spec fn spec_has_word(input: Seq<u8>, pos: int, word: &str) -> bool {
    &&& 0 <= pos
    &&& pos + word.spec_bytes().len() <= input.len()
    &&& input.subrange(pos, pos + word.spec_bytes().len()) == word.spec_bytes()
}

/// The first of the two names that stands at `pos`, with its length.
pub open spec fn spec_either_word(input: Seq<u8>, pos: int, long: &str, short: &str) -> Option<
    usize,
> {
    if spec_has_word(input, pos, long) {
        Some(long.spec_bytes().len() as usize)
    } else if spec_has_word(input, pos, short) {
        Some(short.spec_bytes().len() as usize)
    } else {
        None
    }
}

/// The unit of distance named at `pos`, and the length of the name.
///
/// Each unit goes by its plural and its singular; kilometers also by `km`.
pub open spec fn spec_parse_length_unit(input: Seq<u8>, pos: int) -> Option<(LengthUnit, usize)> {
    if let Some(n) = spec_either_word(input, pos, "miles", "mile") {
        Some((LengthUnit::Miles, n))
    } else if let Some(n) = spec_either_word(input, pos, "yards", "yard") {
        Some((LengthUnit::Yards, n))
    } else if let Some(n) = spec_either_word(input, pos, "feet", "foot") {
        Some((LengthUnit::Feet, n))
    } else if let Some(n) = spec_either_word(input, pos, "meters", "meter") {
        Some((LengthUnit::Meters, n))
    } else if let Some(n) = spec_either_word(input, pos, "kilometers", "kilometer") {
        Some((LengthUnit::Kilometers, n))
    } else if spec_has_word(input, pos, "km") {
        Some((LengthUnit::Kilometers, "km".spec_bytes().len() as usize))
    } else {
        None
    }
}

/// The unit of time named at `pos`, and the length of the name.
pub open spec fn spec_parse_time_unit(input: Seq<u8>, pos: int) -> Option<(TimeUnit, usize)> {
    if let Some(n) = spec_either_word(input, pos, "seconds", "second") {
        Some((TimeUnit::Seconds, n))
    } else if let Some(n) = spec_either_word(input, pos, "minutes", "minute") {
        Some((TimeUnit::Minutes, n))
    } else if let Some(n) = spec_either_word(input, pos, "hours", "hour") {
        Some((TimeUnit::Hours, n))
    } else {
        None
    }
}

/// The heart-rate zone named at `pos`, `z1` to `z5`, and the length of the
/// name.
pub open spec fn spec_parse_heart_rate_zone(input: Seq<u8>, pos: int) -> Option<
    (HeartRateZone, usize),
> {
    if spec_has_word(input, pos, "z1") {
        Some((HeartRateZone::Z1, "z1".spec_bytes().len() as usize))
    } else if spec_has_word(input, pos, "z2") {
        Some((HeartRateZone::Z2, "z2".spec_bytes().len() as usize))
    } else if spec_has_word(input, pos, "z3") {
        Some((HeartRateZone::Z3, "z3".spec_bytes().len() as usize))
    } else if spec_has_word(input, pos, "z4") {
        Some((HeartRateZone::Z4, "z4".spec_bytes().len() as usize))
    } else if spec_has_word(input, pos, "z5") {
        Some((HeartRateZone::Z5, "z5".spec_bytes().len() as usize))
    } else {
        None
    }
}

/// The seconds in `minutes:seconds`.
pub open spec fn spec_time_value(minutes: Seq<u8>, seconds: Seq<u8>) -> nat {
    60 * spec_digits_value(minutes) + spec_digits_value(seconds)
}

/// The token that starts with the digit at `pos`: a time where the digits are
/// followed by a colon and a digit, a number with decimal places where they
/// are followed by a point and a digit, else a whole number.
pub open spec fn spec_number_at(input: Seq<u8>, pos: int) -> Token {
    let whole_end = spec_digits_end(input, pos);
    let part_end = spec_digits_end(input, whole_end + 1);
    let whole = input.subrange(pos, whole_end);
    let part = input.subrange(whole_end + 1, part_end);
    if spec_byte_is(input, whole_end, 58) && part_end > whole_end + 1 {
        Token {
            kind: TokenKind::Time(spec_decimal(spec_time_value(whole, part), 0)),
            start: pos as usize,
            end: part_end as usize,
        }
    } else if spec_byte_is(input, whole_end, 46) && part_end > whole_end + 1 {
        Token {
            kind: TokenKind::Number {
                integer: false,
                value: spec_decimal(spec_digits_value(whole + part), part.len()),
            },
            start: pos as usize,
            end: part_end as usize,
        }
    } else {
        Token {
            kind: TokenKind::Number {
                integer: true,
                value: spec_decimal(spec_digits_value(whole), 0),
            },
            start: pos as usize,
            end: whole_end as usize,
        }
    }
}

/// The sign that the byte stands for.
pub open spec fn spec_sign(byte: u8) -> Option<TokenKind> {
    if byte == 43 {
        Some(TokenKind::Plus)
    } else if byte == 40 {
        Some(TokenKind::Open)
    } else if byte == 41 {
        Some(TokenKind::Close)
    } else if byte == 64 {
        Some(TokenKind::At)
    } else if byte == 45 {
        Some(TokenKind::Dash)
    } else if byte == 47 {
        Some(TokenKind::Slash)
    } else {
        None
    }
}

/// The word that stands at `pos`, and its length.
pub open spec fn spec_word_at(input: Seq<u8>, pos: int) -> Option<(TokenKind, usize)> {
    if spec_has_word(input, pos, "warmup") {
        Some((TokenKind::Warmup, "warmup".spec_bytes().len() as usize))
    } else if spec_has_word(input, pos, "cooldown") {
        Some((TokenKind::Cooldown, "cooldown".spec_bytes().len() as usize))
    } else if spec_has_word(input, pos, "recovery") {
        Some((TokenKind::Recovery, "recovery".spec_bytes().len() as usize))
    } else if spec_has_word(input, pos, "x") {
        Some((TokenKind::Times, "x".spec_bytes().len() as usize))
    } else if let Some((unit, n)) = spec_parse_length_unit(input, pos) {
        Some((TokenKind::Length(unit), n))
    } else if let Some((unit, n)) = spec_parse_time_unit(input, pos) {
        Some((TokenKind::Duration(unit), n))
    } else if let Some((zone, n)) = spec_parse_heart_rate_zone(input, pos) {
        Some((TokenKind::Zone(zone), n))
    } else {
        None
    }
}

/// The token that starts at `pos`, where no blank stands.
pub open spec fn spec_token_at(input: Seq<u8>, pos: int) -> Token {
    if !(0 <= pos < input.len()) {
        Token { kind: TokenKind::End, start: pos as usize, end: pos as usize }
    } else if spec_is_digit(input[pos]) {
        spec_number_at(input, pos)
    } else if let Some(kind) = spec_sign(input[pos]) {
        Token { kind, start: pos as usize, end: (pos + 1) as usize }
    } else if let Some((kind, n)) = spec_word_at(input, pos) {
        Token { kind, start: pos as usize, end: (pos + n) as usize }
    } else {
        Token { kind: TokenKind::Invalid, start: pos as usize, end: pos as usize }
    }
}

/// Whether nothing follows a token of this kind.
pub open spec fn spec_is_last(kind: TokenKind) -> bool {
    kind is End || kind is Invalid
}

/// The tokens of the input from `pos` on.
pub open spec fn spec_tokens_from(input: Seq<u8>, pos: int) -> Seq<Token>
    decreases input.len() - pos,
{
    let start = spec_skip_blanks(input, pos);
    let token = spec_token_at(input, start);
    if spec_is_last(token.kind) || token.end <= pos || token.end > input.len() {
        seq![token]
    } else {
        seq![token] + spec_tokens_from(input, token.end as int)
    }
}

/// The tokens of the input.
pub open spec fn spec_tokenize(input: Seq<u8>) -> Seq<Token> {
    spec_tokens_from(input, 0)
}

/// One more than the largest mantissa; it stands for every number beyond.
const TOO_LARGE: u64 = 9_007_199_254_740_992;

spec fn capped(n: nat) -> u64 {
    if n <= MAX_MANTISSA {
        n as u64
    } else {
        TOO_LARGE
    }
}

fn is_blank(byte: u8) -> (b: bool)
    ensures
        b == spec_is_blank(byte),
{
    byte == 32 || byte == 9 || byte == 10 || byte == 13
}

fn is_digit(byte: u8) -> (b: bool)
    ensures
        b == spec_is_digit(byte),
{
    48 <= byte && byte <= 57
}

fn skip_blanks(input: &[u8], pos: usize) -> (end: usize)
    requires
        pos <= input@.len(),
    ensures
        end == spec_skip_blanks(input@, pos as int),
        pos <= end <= input@.len(),
{
    let mut end: usize = pos;
    while end < input.len() && is_blank(input[end])
        invariant
            pos <= end <= input@.len(),
            spec_skip_blanks(input@, pos as int) == spec_skip_blanks(input@, end as int),
        decreases input@.len() - end,
    {
        end = end + 1;
    }
    end
}

proof fn lemma_digits_value_push(digits: Seq<u8>, byte: u8)
    requires
        spec_is_digit(byte),
    ensures
        spec_digits_value(digits.push(byte)) == 10 * spec_digits_value(digits) + (byte - 48),
{
    assert(digits.push(byte).drop_last() =~= digits);
}

/// A run of digits ends at or after its start, within the input.
pub proof fn lemma_digits_end_bounds(input: Seq<u8>, pos: int)
    requires
        0 <= pos <= input.len(),
    ensures
        pos <= spec_digits_end(input, pos) <= input.len(),
    decreases input.len() - pos,
{
    if pos < input.len() && spec_is_digit(input[pos]) {
        lemma_digits_end_bounds(input, pos + 1);
    }
}

/// Reads the digits from `pos` on, after the digits `before` whose capped
/// value is `value`.
fn scan_digits(input: &[u8], pos: usize, value: u64, Ghost(before): Ghost<Seq<u8>>) -> (r: (
    usize,
    u64,
))
    requires
        pos <= input@.len(),
        value == capped(spec_digits_value(before)),
    ensures
        r.0 == spec_digits_end(input@, pos as int),
        pos <= r.0 <= input@.len(),
        r.1 == capped(spec_digits_value(before + input@.subrange(pos as int, r.0 as int))),
{
    let mut end: usize = pos;
    let mut value: u64 = value;
    assert(before + input@.subrange(pos as int, pos as int) =~= before);
    while end < input.len() && is_digit(input[end])
        invariant
            pos <= end <= input@.len(),
            spec_digits_end(input@, pos as int) == spec_digits_end(input@, end as int),
            value == capped(spec_digits_value(before + input@.subrange(pos as int, end as int))),
        decreases input@.len() - end,
    {
        let digit: u64 = (input[end] - 48) as u64;
        proof {
            let read = before + input@.subrange(pos as int, end as int);
            lemma_digits_value_push(read, input@[end as int]);
            assert(read.push(input@[end as int]) =~= before + input@.subrange(
                pos as int,
                end + 1,
            ));
        }
        let next: u64 = 10 * value + digit;
        value = if next < TOO_LARGE {
            next
        } else {
            TOO_LARGE
        };
        end = end + 1;
    }
    (end, value)
}

fn decimal(mantissa: u64, scale: usize, Ghost(exact): Ghost<nat>) -> (r: Option<Decimal>)
    requires
        mantissa == capped(exact),
    ensures
        r == spec_decimal(exact, scale as nat),
{
    if mantissa < TOO_LARGE && scale <= MAX_SCALE as usize {
        Decimal::new(mantissa, scale as u8)
    } else {
        None
    }
}

fn number_at(input: &[u8], pos: usize) -> (token: Token)
    requires
        pos < input@.len(),
        spec_is_digit(input@[pos as int]),
    ensures
        token == spec_number_at(input@, pos as int),
        pos < token.end <= input@.len(),
{
    let (whole_end, whole) = scan_digits(input, pos, 0, Ghost(Seq::empty()));
    let ghost whole_digits = input@.subrange(pos as int, whole_end as int);
    assert(Seq::<u8>::empty() + whole_digits =~= whole_digits);
    proof {
        lemma_digits_end_bounds(input@, pos + 1);
        if whole_end + 1 < input@.len() {
            lemma_digits_end_bounds(input@, whole_end + 2);
        }
    }
    if whole_end < input.len() && whole_end + 1 < input.len() && is_digit(input[whole_end + 1]) {
        if input[whole_end] == 58 {
            let (part_end, part) = scan_digits(input, whole_end + 1, 0, Ghost(Seq::empty()));
            let ghost part_digits = input@.subrange(whole_end + 1, part_end as int);
            assert(Seq::<u8>::empty() + part_digits =~= part_digits);
            let seconds: u64 = 60 * whole + part;
            let capped_seconds: u64 = if seconds < TOO_LARGE {
                seconds
            } else {
                TOO_LARGE
            };
            return Token {
                kind: TokenKind::Time(
                    decimal(
                        capped_seconds,
                        0,
                        Ghost(spec_time_value(whole_digits, part_digits)),
                    ),
                ),
                start: pos,
                end: part_end,
            };
        } else if input[whole_end] == 46 {
            let (part_end, mantissa) = scan_digits(
                input,
                whole_end + 1,
                whole,
                Ghost(whole_digits),
            );
            let ghost part_digits = input@.subrange(whole_end + 1, part_end as int);
            return Token {
                kind: TokenKind::Number {
                    integer: false,
                    value: decimal(
                        mantissa,
                        part_end - whole_end - 1,
                        Ghost(spec_digits_value(whole_digits + part_digits)),
                    ),
                },
                start: pos,
                end: part_end,
            };
        }
    }
    Token {
        kind: TokenKind::Number {
            integer: true,
            value: decimal(whole, 0, Ghost(spec_digits_value(whole_digits))),
        },
        start: pos,
        end: whole_end,
    }
}

/// Whether the bytes of `word` stand at `pos`.
fn has_word(input: &[u8], pos: usize, word: &str) -> (b: bool)
    ensures
        b == spec_has_word(input@, pos as int, word),
{
    let bytes = word.as_bytes();
    if pos > input.len() || bytes.len() > input.len() - pos {
        return false;
    }
    let mut k: usize = 0;
    while k < bytes.len()
        invariant
            k <= bytes@.len(),
            pos + bytes.len() <= input.len(),
            bytes@ == word.spec_bytes(),
            forall|j: int| 0 <= j < k ==> input@[pos + j] == bytes@[j],
        decreases bytes@.len() - k,
    {
        if input[pos + k] != bytes[k] {
            assert(input@.subrange(pos as int, pos + bytes@.len())[k as int] != bytes@[k as int]);
            return false;
        }
        k = k + 1;
    }
    assert(input@.subrange(pos as int, pos + bytes@.len()) =~= bytes@);
    true
}

fn either_word(input: &[u8], pos: usize, long: &str, short: &str) -> (r: Option<usize>)
    ensures
        r == spec_either_word(input@, pos as int, long, short),
{
    if has_word(input, pos, long) {
        Some(long.len())
    } else if has_word(input, pos, short) {
        Some(short.len())
    } else {
        None
    }
}

/// The unit of distance named at offset `pos` of the input, and the length
/// of the name: `miles`, `mile`, `yards`, `yard`, `feet`, `foot`, `meters`,
/// `meter`, `kilometers`, `kilometer` or `km`.
pub fn parse_length_unit(input: &[u8], pos: usize) -> (r: Option<(LengthUnit, usize)>)
    ensures
        r == spec_parse_length_unit(input@, pos as int),
{
    if let Some(n) = either_word(input, pos, "miles", "mile") {
        Some((LengthUnit::Miles, n))
    } else if let Some(n) = either_word(input, pos, "yards", "yard") {
        Some((LengthUnit::Yards, n))
    } else if let Some(n) = either_word(input, pos, "feet", "foot") {
        Some((LengthUnit::Feet, n))
    } else if let Some(n) = either_word(input, pos, "meters", "meter") {
        Some((LengthUnit::Meters, n))
    } else if let Some(n) = either_word(input, pos, "kilometers", "kilometer") {
        Some((LengthUnit::Kilometers, n))
    } else if has_word(input, pos, "km") {
        Some((LengthUnit::Kilometers, "km".len()))
    } else {
        None
    }
}

/// The unit of time named at offset `pos` of the input, and the length of
/// the name: `seconds`, `second`, `minutes`, `minute`, `hours` or `hour`.
pub fn parse_time_unit(input: &[u8], pos: usize) -> (r: Option<(TimeUnit, usize)>)
    ensures
        r == spec_parse_time_unit(input@, pos as int),
{
    if let Some(n) = either_word(input, pos, "seconds", "second") {
        Some((TimeUnit::Seconds, n))
    } else if let Some(n) = either_word(input, pos, "minutes", "minute") {
        Some((TimeUnit::Minutes, n))
    } else if let Some(n) = either_word(input, pos, "hours", "hour") {
        Some((TimeUnit::Hours, n))
    } else {
        None
    }
}

/// The heart-rate zone named at offset `pos` of the input, `z1` to `z5`, and
/// the length of the name.
pub fn parse_heart_rate_zone(input: &[u8], pos: usize) -> (r: Option<(HeartRateZone, usize)>)
    ensures
        r == spec_parse_heart_rate_zone(input@, pos as int),
{
    if has_word(input, pos, "z1") {
        Some((HeartRateZone::Z1, "z1".len()))
    } else if has_word(input, pos, "z2") {
        Some((HeartRateZone::Z2, "z2".len()))
    } else if has_word(input, pos, "z3") {
        Some((HeartRateZone::Z3, "z3".len()))
    } else if has_word(input, pos, "z4") {
        Some((HeartRateZone::Z4, "z4".len()))
    } else if has_word(input, pos, "z5") {
        Some((HeartRateZone::Z5, "z5".len()))
    } else {
        None
    }
}

fn sign(byte: u8) -> (r: Option<TokenKind>)
    ensures
        r == spec_sign(byte),
{
    if byte == 43 {
        Some(TokenKind::Plus)
    } else if byte == 40 {
        Some(TokenKind::Open)
    } else if byte == 41 {
        Some(TokenKind::Close)
    } else if byte == 64 {
        Some(TokenKind::At)
    } else if byte == 45 {
        Some(TokenKind::Dash)
    } else if byte == 47 {
        Some(TokenKind::Slash)
    } else {
        None
    }
}

fn word_at(input: &[u8], pos: usize) -> (r: Option<(TokenKind, usize)>)
    ensures
        r == spec_word_at(input@, pos as int),
{
    if has_word(input, pos, "warmup") {
        Some((TokenKind::Warmup, "warmup".len()))
    } else if has_word(input, pos, "cooldown") {
        Some((TokenKind::Cooldown, "cooldown".len()))
    } else if has_word(input, pos, "recovery") {
        Some((TokenKind::Recovery, "recovery".len()))
    } else if has_word(input, pos, "x") {
        Some((TokenKind::Times, "x".len()))
    } else if let Some((unit, n)) = parse_length_unit(input, pos) {
        Some((TokenKind::Length(unit), n))
    } else if let Some((unit, n)) = parse_time_unit(input, pos) {
        Some((TokenKind::Duration(unit), n))
    } else if let Some((zone, n)) = parse_heart_rate_zone(input, pos) {
        Some((TokenKind::Zone(zone), n))
    } else {
        None
    }
}

/// The token that starts at offset `pos` of the input, where no blank
/// stands.
pub(crate) fn token_at(input: &[u8], pos: usize) -> (token: Token)
    requires
        pos <= input@.len(),
    ensures
        token == spec_token_at(input@, pos as int),
{
    if pos >= input.len() {
        return Token { kind: TokenKind::End, start: pos, end: pos };
    }
    let byte: u8 = input[pos];
    if is_digit(byte) {
        number_at(input, pos)
    } else if let Some(kind) = sign(byte) {
        Token { kind, start: pos, end: pos + 1 }
    } else if let Some((kind, n)) = word_at(input, pos) {
        proof {
            lemma_word_fits(input@, pos as int);
        }
        Token { kind, start: pos, end: pos + n }
    } else {
        Token { kind: TokenKind::Invalid, start: pos, end: pos }
    }
}

/// A word that stands at `pos` ends within the input.
proof fn lemma_word_fits(input: Seq<u8>, pos: int)
    requires
        0 <= pos <= input.len(),
        input.len() <= usize::MAX,
    ensures
        spec_word_at(input, pos) matches Some((_, n)) ==> pos + n <= input.len(),
{
}

fn is_last(kind: &TokenKind) -> (b: bool)
    ensures
        b == spec_is_last(*kind),
{
    match kind {
        TokenKind::End => true,
        TokenKind::Invalid => true,
        _ => false,
    }
}

/// The tokens of the input, in the order in which they stand.
pub fn tokenize(input: &[u8]) -> (tokens: Vec<Token>)
    ensures
        tokens@ == spec_tokenize(input@),
{
    let mut tokens: Vec<Token> = Vec::new();
    let mut pos: usize = 0;
    loop
        invariant_except_break
            pos <= input@.len(),
            spec_tokenize(input@) == tokens@ + spec_tokens_from(input@, pos as int),
        ensures
            tokens@ == spec_tokenize(input@),
        decreases input@.len() - pos,
    {
        let start: usize = skip_blanks(input, pos);
        let token: Token = token_at(input, start);
        let ghost before = tokens@;
        tokens.push(token);
        if is_last(&token.kind) || token.end <= pos || token.end > input.len() {
            assert(before.push(token) =~= before + seq![token]);
            break ;
        }
        proof {
            let rest = spec_tokens_from(input@, token.end as int);
            assert(tokens@ + rest =~= before + (seq![token] + rest));
        }
        pos = token.end;
    }
    tokens
}

} // verus!
