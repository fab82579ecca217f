//! Errors in words, for hosts that show them to the athlete.

use crate::models::Workout;
use crate::parser::error::{ParseError, Rule, RuleSet};
use crate::parser::grammar::spec_parse_workout;
use crate::parser::parse_workout;
use vstd::prelude::*;
use vstd::string::{StringExecFns, StringSliceAdditionalSpecFns};

verus! {

/// The digit `d` as a text.
pub open spec fn spec_digit_text(d: nat) -> Seq<char> {
    if d == 0 {
        "0"@
    } else if d == 1 {
        "1"@
    } else if d == 2 {
        "2"@
    } else if d == 3 {
        "3"@
    } else if d == 4 {
        "4"@
    } else if d == 5 {
        "5"@
    } else if d == 6 {
        "6"@
    } else if d == 7 {
        "7"@
    } else if d == 8 {
        "8"@
    } else {
        "9"@
    }
}

/// The number `n` written in base ten.
pub open spec fn spec_number_text(n: nat) -> Seq<char>
    decreases n,
{
    if n < 10 {
        spec_digit_text(n)
    } else {
        spec_number_text(n / 10) + spec_digit_text(n % 10)
    }
}

/// The digits as a text, the last of them first.
spec fn backwards(digits: Seq<u8>) -> Seq<char>
    decreases digits.len(),
{
    if digits.len() == 0 {
        Seq::empty()
    } else {
        spec_digit_text(digits.last() as nat) + backwards(digits.drop_last())
    }
}

fn digit_text(d: u8) -> (text: &'static str)
    requires
        d < 10,
    ensures
        text@ == spec_digit_text(d as nat),
{
    if d == 0 {
        "0"
    } else if d == 1 {
        "1"
    } else if d == 2 {
        "2"
    } else if d == 3 {
        "3"
    } else if d == 4 {
        "4"
    } else if d == 5 {
        "5"
    } else if d == 6 {
        "6"
    } else if d == 7 {
        "7"
    } else if d == 8 {
        "8"
    } else {
        "9"
    }
}

/// The number `n` written in base ten.
pub fn number_text(n: usize) -> (text: String)
    ensures
        text@ == spec_number_text(n as nat),
{
    let mut digits: Vec<u8> = Vec::new();
    let mut rest: usize = n;
    while rest >= 10
        invariant
            spec_number_text(n as nat) == spec_number_text(rest as nat) + backwards(digits@),
            forall|k: int| 0 <= k < digits@.len() ==> digits@[k] < 10,
        decreases rest,
    {
        let ghost before = digits@;
        let digit: u8 = (rest % 10) as u8;
        digits.push(digit);
        proof {
            assert(digits@.drop_last() =~= before);
            assert(spec_number_text((rest / 10) as nat) + backwards(digits@) =~= spec_number_text(
                rest as nat,
            ) + backwards(before));
        }
        rest = rest / 10;
    }
    let mut text = String::from_str(digit_text(rest as u8));
    let mut k: usize = digits.len();
    assert(digits@.take(k as int) =~= digits@);
    while k > 0
        invariant
            k <= digits@.len(),
            forall|j: int| 0 <= j < digits@.len() ==> digits@[j] < 10,
            spec_number_text(n as nat) == text@ + backwards(digits@.take(k as int)),
        decreases k,
    {
        let ghost before = text@;
        k = k - 1;
        text.append(digit_text(digits[k]));
        proof {
            assert(digits@.take(k + 1).drop_last() =~= digits@.take(k as int));
            assert(text@ + backwards(digits@.take(k as int)) =~= before + backwards(
                digits@.take(k + 1),
            ));
        }
    }
    assert(backwards(digits@.take(0)) =~= Seq::empty());
    text
}

impl Rule {
    /// The rule in words.
    pub open spec fn spec_name(self) -> &'static str {
        match self {
            Rule::Number => "a number",
            Rule::Time => "a time as minutes:seconds",
            Rule::LengthUnit => "a unit of distance",
            Rule::TimeUnit => "a unit of time",
            Rule::Zone => "a heart-rate zone",
            Rule::Times => "`x`",
            Rule::Open => "`(`",
            Rule::Close => "`)`",
            Rule::Plus => "`+`",
            Rule::At => "`@`",
            Rule::Dash => "`-`",
            Rule::Slash => "`/`",
            Rule::Warmup => "`warmup`",
            Rule::Cooldown => "`cooldown`",
            Rule::Recovery => "`recovery`",
            Rule::End => "the end of the input",
        }
    }

    /// The rule in words.
    pub fn name(self) -> (name: &'static str)
        ensures
            name@ == self.spec_name()@,
    {
        match self {
            Rule::Number => "a number",
            Rule::Time => "a time as minutes:seconds",
            Rule::LengthUnit => "a unit of distance",
            Rule::TimeUnit => "a unit of time",
            Rule::Zone => "a heart-rate zone",
            Rule::Times => "`x`",
            Rule::Open => "`(`",
            Rule::Close => "`)`",
            Rule::Plus => "`+`",
            Rule::At => "`@`",
            Rule::Dash => "`-`",
            Rule::Slash => "`/`",
            Rule::Warmup => "`warmup`",
            Rule::Cooldown => "`cooldown`",
            Rule::Recovery => "`recovery`",
            Rule::End => "the end of the input",
        }
    }

    /// The rules in the order in which a message names them.
    pub open spec fn spec_in_order(k: nat) -> Rule {
        if k == 0 {
            Rule::Number
        } else if k == 1 {
            Rule::Time
        } else if k == 2 {
            Rule::LengthUnit
        } else if k == 3 {
            Rule::TimeUnit
        } else if k == 4 {
            Rule::Zone
        } else if k == 5 {
            Rule::Times
        } else if k == 6 {
            Rule::Open
        } else if k == 7 {
            Rule::Close
        } else if k == 8 {
            Rule::Plus
        } else if k == 9 {
            Rule::At
        } else if k == 10 {
            Rule::Dash
        } else if k == 11 {
            Rule::Slash
        } else if k == 12 {
            Rule::Warmup
        } else if k == 13 {
            Rule::Cooldown
        } else if k == 14 {
            Rule::Recovery
        } else {
            Rule::End
        }
    }

    fn in_order(k: u8) -> (rule: Rule)
        ensures
            rule == Self::spec_in_order(k as nat),
    {
        if k == 0 {
            Rule::Number
        } else if k == 1 {
            Rule::Time
        } else if k == 2 {
            Rule::LengthUnit
        } else if k == 3 {
            Rule::TimeUnit
        } else if k == 4 {
            Rule::Zone
        } else if k == 5 {
            Rule::Times
        } else if k == 6 {
            Rule::Open
        } else if k == 7 {
            Rule::Close
        } else if k == 8 {
            Rule::Plus
        } else if k == 9 {
            Rule::At
        } else if k == 10 {
            Rule::Dash
        } else if k == 11 {
            Rule::Slash
        } else if k == 12 {
            Rule::Warmup
        } else if k == 13 {
            Rule::Cooldown
        } else if k == 14 {
            Rule::Recovery
        } else {
            Rule::End
        }
    }
}

impl RuleSet {
    /// The names of the set's rules from the `k`-th rule on, with `or`
    /// between one and the next; `named` tells that a rule was named before.
    pub open spec fn spec_names_from(self, k: nat, named: bool) -> Seq<char>
        decreases 16 - k,
    {
        if k >= 16 {
            Seq::empty()
        } else if self.spec_contains(Rule::spec_in_order(k)) {
            (if named {
                " or "@
            } else {
                Seq::empty()
            }) + Rule::spec_in_order(k).spec_name()@ + self.spec_names_from(k + 1, true)
        } else {
            self.spec_names_from(k + 1, named)
        }
    }

    /// The names of the set's rules, with `or` between one and the next.
    pub open spec fn spec_names(self) -> Seq<char> {
        self.spec_names_from(0, false)
    }

    /// The names of the set's rules, with `or` between one and the next.
    pub fn names(self) -> (text: String)
        ensures
            text@ == self.spec_names(),
    {
        let mut text = String::new();
        let mut named: bool = false;
        let mut k: u8 = 0;
        assert(text@ + self.spec_names_from(0, false) =~= self.spec_names());
        while k < 16
            invariant
                k <= 16,
                self.spec_names() == text@ + self.spec_names_from(k as nat, named),
            decreases 16 - k,
        {
            let ghost before = text@;
            let rule = Rule::in_order(k);
            if self.contains(rule) {
                if named {
                    text.append(" or ");
                }
                text.append(rule.name());
                proof {
                    let lead = if named {
                        " or "@
                    } else {
                        Seq::empty()
                    };
                    let rest = self.spec_names_from((k + 1) as nat, true);
                    assert(text@ + rest =~= before + (lead + rule.spec_name()@ + rest));
                }
                named = true;
            }
            k = k + 1;
        }
        assert(text@ + Seq::<char>::empty() =~= text@);
        text
    }
}

impl ParseError {
    /// The error in words: where the input goes wrong, and what could have
    /// stood there.
    pub open spec fn spec_message(self) -> Seq<char> {
        match self {
            ParseError::Syntax { position, expected } => "at byte "@ + spec_number_text(
                position as nat,
            ) + ": expected "@ + expected.spec_names(),
            ParseError::OutOfRange { position } => "at byte "@ + spec_number_text(position as nat)
                + ": the number is too large or has too many decimal places"@,
        }
    }

    /// The error in words: where the input goes wrong, and what could have
    /// stood there.
    pub fn message(&self) -> (text: String)
        ensures
            text@ == self.spec_message(),
    {
        let mut text = String::from_str("at byte ");
        match self {
            ParseError::Syntax { position, expected } => {
                let place = number_text(*position);
                text.append(place.as_str());
                text.append(": expected ");
                let names = expected.names();
                text.append(names.as_str());
            },
            ParseError::OutOfRange { position } => {
                let place = number_text(*position);
                text.append(place.as_str());
                text.append(": the number is too large or has too many decimal places");
            },
        }
        text
    }
}

/// An input that is not a workout, told in words.
#[derive(Clone, Debug, PartialEq, Eq)]
pub enum UniffiError {
    Parsing(String),
}

/// What [`get_workout`] gives, for an input that writes this or that.
pub open spec fn spec_get_workout(r: Result<Workout, UniffiError>, input: Seq<u8>) -> bool {
    match r {
        Ok(workout) => spec_parse_workout(input) == Ok::<_, ParseError>(workout@),
        Err(UniffiError::Parsing(text)) => spec_parse_workout(input) matches Err(e) && text@
            == e.spec_message(),
    }
}

/// The workout that a text in the notation writes, or in words why it
/// writes none.
pub fn get_workout(input: &str) -> (r: Result<Workout, UniffiError>)
    ensures
        spec_get_workout(r, input.spec_bytes()),
{
    match parse_workout(input) {
        Ok(workout) => Ok(workout),
        Err(e) => Err(UniffiError::Parsing(e.message())),
    }
}

} // verus!
