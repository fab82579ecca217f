//! What the parser reports when the input does not follow the notation.

use vstd::prelude::*;

verus! {

/// What the notation can ask for at some point of the input.
#[derive(Clone, Copy, Debug, PartialEq, Eq, Hash, Structural)]
pub enum Rule {
    /// A number.
    Number,
    /// A time as minutes, a colon and seconds.
    Time,
    /// The name of a unit of distance.
    LengthUnit,
    /// The name of a unit of time.
    TimeUnit,
    /// The name of a heart-rate zone.
    Zone,
    /// The letter `x` after a repeat count.
    Times,
    /// The sign `(`.
    Open,
    /// The sign `)`.
    Close,
    /// The sign `+`.
    Plus,
    /// The sign `@`.
    At,
    /// The sign `-`.
    Dash,
    /// The sign `/`.
    Slash,
    /// The word `warmup`.
    Warmup,
    /// The word `cooldown`.
    Cooldown,
    /// The word `recovery`.
    Recovery,
    /// The end of the input.
    End,
}

impl Rule {
    /// The bit that stands for the rule in a [`RuleSet`].
    pub open spec fn spec_bit(self) -> u32 {
        match self {
            Rule::Number => 0x1,
            Rule::Time => 0x2,
            Rule::LengthUnit => 0x4,
            Rule::TimeUnit => 0x8,
            Rule::Zone => 0x10,
            Rule::Times => 0x20,
            Rule::Open => 0x40,
            Rule::Close => 0x80,
            Rule::Plus => 0x100,
            Rule::At => 0x200,
            Rule::Dash => 0x400,
            Rule::Slash => 0x800,
            Rule::Warmup => 0x1000,
            Rule::Cooldown => 0x2000,
            Rule::Recovery => 0x4000,
            Rule::End => 0x8000,
        }
    }

    /// The bit that stands for the rule in a [`RuleSet`].
    #[verifier::when_used_as_spec(spec_bit)]
    pub fn bit(self) -> (bit: u32)
        ensures
            bit == self.spec_bit(),
    {
        match self {
            Rule::Number => 0x1,
            Rule::Time => 0x2,
            Rule::LengthUnit => 0x4,
            Rule::TimeUnit => 0x8,
            Rule::Zone => 0x10,
            Rule::Times => 0x20,
            Rule::Open => 0x40,
            Rule::Close => 0x80,
            Rule::Plus => 0x100,
            Rule::At => 0x200,
            Rule::Dash => 0x400,
            Rule::Slash => 0x800,
            Rule::Warmup => 0x1000,
            Rule::Cooldown => 0x2000,
            Rule::Recovery => 0x4000,
            Rule::End => 0x8000,
        }
    }
}

/// A set of rules, one bit for each.
#[derive(Clone, Copy, Debug, PartialEq, Eq, Hash, Structural)]
pub struct RuleSet {
    pub bits: u32,
}

impl RuleSet {
    /// The set without any rule.
    pub open spec fn spec_empty() -> RuleSet {
        RuleSet { bits: 0 }
    }

    /// The set without any rule.
    #[verifier::when_used_as_spec(spec_empty)]
    pub fn empty() -> (set: RuleSet)
        ensures
            set == Self::spec_empty(),
    {
        RuleSet { bits: 0 }
    }

    /// The set with `rule` added.
    pub open spec fn spec_with(self, rule: Rule) -> RuleSet {
        RuleSet { bits: self.bits | rule.spec_bit() }
    }

    /// The set with `rule` added.
    #[verifier::when_used_as_spec(spec_with)]
    pub fn with(self, rule: Rule) -> (set: RuleSet)
        ensures
            set == self.spec_with(rule),
    {
        RuleSet { bits: self.bits | rule.bit() }
    }

    /// The set of one rule.
    pub open spec fn spec_of(rule: Rule) -> RuleSet {
        Self::spec_empty().spec_with(rule)
    }

    /// The set of one rule.
    #[verifier::when_used_as_spec(spec_of)]
    pub fn of(rule: Rule) -> (set: RuleSet)
        ensures
            set == Self::spec_of(rule),
    {
        RuleSet::empty().with(rule)
    }

    /// Whether `rule` is in the set.
    pub open spec fn spec_contains(self, rule: Rule) -> bool {
        self.bits & rule.spec_bit() != 0
    }

    /// Whether `rule` is in the set.
    #[verifier::when_used_as_spec(spec_contains)]
    pub fn contains(self, rule: Rule) -> (b: bool)
        ensures
            b == self.spec_contains(rule),
    {
        self.bits & rule.bit() != 0
    }

    /// The empty set holds no rule.
    pub proof fn lemma_empty_holds_nothing(rule: Rule)
        ensures
            !Self::spec_empty().spec_contains(rule),
    {
        let bit = rule.spec_bit();
        assert(0u32 & bit == 0) by (bit_vector);
    }

    /// A set with a rule added holds that rule, and besides it what it held
    /// before.
    pub proof fn lemma_with_holds(self, added: Rule, rule: Rule)
        ensures
            self.spec_with(added).spec_contains(rule) == (rule == added || self.spec_contains(
                rule,
            )),
    {
        let bits = self.bits;
        let a = added.spec_bit();
        let r = rule.spec_bit();
        assert((bits | a) & r == (bits & r) | (a & r)) by (bit_vector);
        assert(((bits & r) | (a & r)) != 0 <==> (bits & r) != 0 || (a & r) != 0) by (bit_vector);
        if rule == added {
            assert(a & a == a) by (bit_vector);
        } else {
            Self::lemma_distinct_bits(added, rule);
        }
    }

    proof fn lemma_distinct_bits(a: Rule, b: Rule)
        requires
            a != b,
        ensures
            a.spec_bit() & b.spec_bit() == 0,
    {
        let x = a.spec_bit();
        let y = b.spec_bit();
        assert(x & y == 0) by (bit_vector)
            requires
                x != y,
                x == 0x1 || x == 0x2 || x == 0x4 || x == 0x8 || x == 0x10 || x == 0x20 || x == 0x40
                    || x == 0x80 || x == 0x100 || x == 0x200 || x == 0x400 || x == 0x800 || x
                    == 0x1000 || x == 0x2000 || x == 0x4000 || x == 0x8000,
                y == 0x1 || y == 0x2 || y == 0x4 || y == 0x8 || y == 0x10 || y == 0x20 || y == 0x40
                    || y == 0x80 || y == 0x100 || y == 0x200 || y == 0x400 || y == 0x800 || y
                    == 0x1000 || y == 0x2000 || y == 0x4000 || y == 0x8000,
        ;
    }
}

/// Why an input is not a workout.
#[derive(Clone, Copy, Debug, PartialEq, Eq, Structural)]
pub enum ParseError {
    /// The input does not follow the notation: at the byte offset `position`
    /// stands none of what `expected` names.
    Syntax { position: usize, expected: RuleSet },
    /// The number at the byte offset `position` is larger or has more decimal
    /// places than the model can hold.
    OutOfRange { position: usize },
}

impl ParseError {
    /// The byte offset at which the input went wrong.
    pub open spec fn spec_position(&self) -> usize {
        match *self {
            ParseError::Syntax { position, .. } => position,
            ParseError::OutOfRange { position } => position,
        }
    }

    /// The byte offset at which the input went wrong.
    #[verifier::when_used_as_spec(spec_position)]
    pub fn position(&self) -> (position: usize)
        ensures
            position == self.spec_position(),
    {
        match self {
            ParseError::Syntax { position, .. } => *position,
            ParseError::OutOfRange { position } => *position,
        }
    }
}

} // verus!
