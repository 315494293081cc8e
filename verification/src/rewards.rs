//! The rewards that clearing a challenge can unlock, as a set of flags.

use vstd::prelude::*;

use crate::text::{chars_of, equals};

verus! {

/// The mask of the empty set of rewards.
pub const NONE: u32 = 0;

/// One more ability may be used on each challenge.
pub const ADDITIONAL_ABILITY: u32 = 0x01;

/// The atmosphere die has one more face.
pub const ATMOSPHERE_RANGE: u32 = 0x02;

/// The diction die is rolled with strength.
pub const DICTION_STRENGTH: u32 = 0x04;

/// The diction die has one more face.
pub const DICTION_RANGE: u32 = 0x08;

/// The precision die is rolled with strength.
pub const PRECISION_STRENGTH: u32 = 0x10;

/// The precision die has one more face.
pub const PRECISION_RANGE: u32 = 0x20;

/// The calmness die is rolled with strength.
pub const CALMNESS_STRENGTH: u32 = 0x40;

/// A high style roll earns a further attempt.
pub const STYLE_EXPLODING: u32 = 0x80;

/// The mask that holds every flag.
pub const ALL: u32 = 0xff;

/// A set of rewards. Its mask is the sum of the flags that it holds.
#[derive(Debug, Copy, Clone, PartialEq, Eq, Hash, Structural)]
pub struct Rewards(u8);

/// The mask of the reward that a line of a challenge list names; an unknown
/// name stands for no reward. The strength of precision is granted as that
/// of diction.
pub open spec fn mask_named(name: Seq<char>) -> u32 {
    if name == "+1 Ability max per challenge"@ {
        ADDITIONAL_ABILITY
    } else if name == "+1 Atmosphere Range"@ {
        ATMOSPHERE_RANGE
    } else if name == "+1 Diction Strength"@ {
        DICTION_STRENGTH
    } else if name == "+1 Diction Range"@ {
        DICTION_RANGE
    } else if name == "+1 Precision Strength"@ {
        DICTION_STRENGTH
    } else if name == "+1 Precision Range"@ {
        PRECISION_RANGE
    } else if name == "+1 Calmness Strength"@ {
        CALMNESS_STRENGTH
    } else if name == "+1 Style Attempt on Style roll of 19 or 20"@ {
        STYLE_EXPLODING
    } else {
        NONE
    }
}

impl Rewards {
    /// The mask of the set.
    pub closed spec fn mask(self) -> u32 {
        self.0 as u32
    }

    /// Whether the set holds every flag of `mask`.
    pub open spec fn includes(self, mask: u32) -> bool {
        self.mask() & mask == mask
    }

    /// A mask never holds more than the eight flags, and two sets with the
    /// same mask are the same set.
    pub proof fn lemma_mask(self, other: Rewards)
        ensures
            self.mask() <= ALL,
            self.mask() == other.mask() ==> self == other,
    {
    }

    /// Returns the set that holds the flags of `bits`; bits that are no flag
    /// are dropped.
    pub fn from_bits_truncate(bits: u32) -> (rewards: Rewards)
        ensures
            rewards.mask() == bits & ALL,
    {
        assert(bits & 0xff <= 0xff) by (bit_vector);
        Rewards((bits & 0xff) as u8)
    }

    /// Returns the mask of the set.
    pub fn bits(&self) -> (bits: u32)
        ensures
            bits == self.mask(),
            bits <= ALL,
    {
        self.0 as u32
    }

    /// Returns the empty set.
    pub fn none() -> (rewards: Rewards)
        ensures
            rewards.mask() == NONE,
    {
        Rewards(0)
    }

    /// Returns the set of the one flag [`ADDITIONAL_ABILITY`].
    pub fn additional_ability() -> (rewards: Rewards)
        ensures
            rewards.mask() == ADDITIONAL_ABILITY,
    {
        Rewards(1)
    }

    /// Returns the set of the one flag [`ATMOSPHERE_RANGE`].
    pub fn atmosphere_range() -> (rewards: Rewards)
        ensures
            rewards.mask() == ATMOSPHERE_RANGE,
    {
        Rewards(2)
    }

    /// Returns the set of the one flag [`DICTION_STRENGTH`].
    pub fn diction_strength() -> (rewards: Rewards)
        ensures
            rewards.mask() == DICTION_STRENGTH,
    {
        Rewards(4)
    }

    /// Returns the set of the one flag [`DICTION_RANGE`].
    pub fn diction_range() -> (rewards: Rewards)
        ensures
            rewards.mask() == DICTION_RANGE,
    {
        Rewards(8)
    }

    /// Returns the set of the one flag [`PRECISION_STRENGTH`].
    pub fn precision_strength() -> (rewards: Rewards)
        ensures
            rewards.mask() == PRECISION_STRENGTH,
    {
        Rewards(16)
    }

    /// Returns the set of the one flag [`PRECISION_RANGE`].
    pub fn precision_range() -> (rewards: Rewards)
        ensures
            rewards.mask() == PRECISION_RANGE,
    {
        Rewards(32)
    }

    /// Returns the set of the one flag [`CALMNESS_STRENGTH`].
    pub fn calmness_strength() -> (rewards: Rewards)
        ensures
            rewards.mask() == CALMNESS_STRENGTH,
    {
        Rewards(64)
    }

    /// Returns the set of the one flag [`STYLE_EXPLODING`].
    pub fn style_exploding() -> (rewards: Rewards)
        ensures
            rewards.mask() == STYLE_EXPLODING,
    {
        Rewards(128)
    }

    /// Returns whether the set is empty.
    pub fn is_empty(&self) -> (empty: bool)
        ensures
            empty == (self.mask() == NONE),
    {
        self.0 == 0
    }

    /// Returns whether every flag of `other` is in the set.
    pub fn contains(&self, other: Rewards) -> (included: bool)
        ensures
            included == self.includes(other.mask()),
    {
        let a: u8 = self.0;
        let b: u8 = other.0;
        assert(((a & b) == b) == ((a as u32 & b as u32) == b as u32)) by (bit_vector);
        (a & b) == b
    }

    /// Returns the set of the flags that are in `self` or in `other`.
    pub fn union(self, other: Rewards) -> (rewards: Rewards)
        ensures
            rewards.mask() == self.mask() | other.mask(),
    {
        let a: u8 = self.0;
        let b: u8 = other.0;
        assert((a | b) as u32 == (a as u32 | b as u32)) by (bit_vector);
        Rewards(a | b)
    }

    /// Returns the set of the flags that are in both `self` and `other`.
    pub fn intersection(self, other: Rewards) -> (rewards: Rewards)
        ensures
            rewards.mask() == self.mask() & other.mask(),
    {
        let a: u8 = self.0;
        let b: u8 = other.0;
        assert((a & b) as u32 == (a as u32 & b as u32)) by (bit_vector);
        Rewards(a & b)
    }

    /// Returns the set of the flags that are in `self` and not in `other`.
    pub fn difference(self, other: Rewards) -> (rewards: Rewards)
        ensures
            rewards.mask() == self.mask() & !other.mask(),
    {
        let a: u8 = self.0;
        let b: u8 = other.0;
        assert((a & !b) as u32 == (a as u32 & !(b as u32))) by (bit_vector);
        Rewards(a & !b)
    }

    /// Returns the set of the flags that are in exactly one of `self` and
    /// `other`.
    pub fn symmetric_difference(self, other: Rewards) -> (rewards: Rewards)
        ensures
            rewards.mask() == self.mask() ^ other.mask(),
    {
        let a: u8 = self.0;
        let b: u8 = other.0;
        assert((a ^ b) as u32 == (a as u32 ^ b as u32)) by (bit_vector);
        Rewards(a ^ b)
    }

    /// Returns the set of the flags that are not in `self`.
    pub fn complement(self) -> (rewards: Rewards)
        ensures
            rewards.mask() == !self.mask() & ALL,
    {
        let a: u8 = self.0;
        assert((!a) as u32 == (!(a as u32) & 0xff)) by (bit_vector);
        Rewards(!a)
    }

    /// Returns the reward that the characters of `chars` from `from` to `to`
    /// name; an unknown name stands for no reward.
    pub fn named(chars: &Vec<char>, from: usize, to: usize) -> (rewards: Rewards)
        requires
            from <= to <= chars.len(),
        ensures
            rewards.mask() == mask_named(chars@.subrange(from as int, to as int)),
    {
        if equals(chars, from, to, &chars_of("+1 Ability max per challenge")) {
            Rewards::additional_ability()
        } else if equals(chars, from, to, &chars_of("+1 Atmosphere Range")) {
            Rewards::atmosphere_range()
        } else if equals(chars, from, to, &chars_of("+1 Diction Strength")) {
            Rewards::diction_strength()
        } else if equals(chars, from, to, &chars_of("+1 Diction Range")) {
            Rewards::diction_range()
        } else if equals(chars, from, to, &chars_of("+1 Precision Strength")) {
            Rewards::diction_strength()
        } else if equals(chars, from, to, &chars_of("+1 Precision Range")) {
            Rewards::precision_range()
        } else if equals(chars, from, to, &chars_of("+1 Calmness Strength")) {
            Rewards::calmness_strength()
        } else if equals(chars, from, to, &chars_of("+1 Style Attempt on Style roll of 19 or 20")) {
            Rewards::style_exploding()
        } else {
            Rewards::none()
        }
    }

    /// Returns the reward that `name` names; an unknown name stands for no
    /// reward.
    pub fn from_name(name: &str) -> (rewards: Rewards)
        ensures
            rewards.mask() == mask_named(name@),
    {
        let chars = chars_of(name);
        assert(chars@.subrange(0, chars.len() as int) =~= name@);
        Rewards::named(&chars, 0, chars.len())
    }

    /// Returns every set of rewards once, in increasing order of mask.
    pub fn combinations() -> (sets: Vec<Rewards>)
        ensures
            sets.len() == 256,
            forall|i: int| 0 <= i < 256 ==> (#[trigger] sets[i]).mask() == i,
    {
        let mut sets: Vec<Rewards> = Vec::new();
        let mut bits: u32 = 0;
        while bits < 256
            invariant
                bits <= 256,
                sets.len() == bits,
                forall|i: int| 0 <= i < bits ==> (#[trigger] sets[i]).mask() == i,
            decreases 256 - bits,
        {
            assert(bits < 256 ==> bits & 0xff == bits) by (bit_vector);
            sets.push(Rewards::from_bits_truncate(bits));
            bits += 1;
        }
        sets
    }
}

impl core::str::FromStr for Rewards {
    type Err = ();

    /// Reads a reward by its name; this never fails.
    fn from_str(name: &str) -> (rewards: Result<Rewards, ()>)
        ensures
            rewards matches Ok(set) && set.mask() == mask_named(name@),
    {
        Ok(Rewards::from_name(name))
    }
}

} // verus!
