//! Challenges and the targets that they can set.

use vstd::prelude::*;

use crate::rewards::Rewards;

verus! {

/// The maximum number of abilities that a challenge can use.
pub const MAX_ABILITIES: usize = 16;

/// The number of possible challenge targets.
pub const TARGETS: usize = 9;

/// The set of possible challenge targets, in increasing order.
pub const TARGET_SET: [usize; 9] = [10, 11, 20, 25, 30, 35, 40, 45, 70];

/// The index of `value` within `TARGET_SET`, where it is a target.
pub open spec fn target_index(value: nat) -> Option<usize> {
    if exists|i: int| 0 <= i < 9 && TARGET_SET[i] == value {
        Some((choose|i: int| 0 <= i < 9 && TARGET_SET[i] == value) as usize)
    } else {
        None
    }
}

/// Returns the index of `value` within `TARGET_SET`, where it is a target.
pub fn target_position(value: usize) -> (index: Option<usize>)
    ensures
        index == target_index(value as nat),
        index matches Some(i) ==> i < 9 && TARGET_SET[i as int] == value,
{
    let mut i: usize = 0;
    while i < 9
        invariant
            i <= 9,
            forall|j: int| 0 <= j < i ==> TARGET_SET[j] != value,
        decreases 9 - i,
    {
        if TARGET_SET[i] == value {
            return Some(i);
        }
        i += 1;
    }
    None
}

/// A challenge: a check against a target, with a cap on the abilities used.
#[derive(Debug, PartialEq, Eq)]
pub struct Challenge {
    /// Name of the challenge.
    pub name: String,
    /// The index of the target within `TARGET_SET`.
    pub target_idx: usize,
    /// The maximum number of abilities that can be used on this challenge.
    pub abilities: u32,
    /// The rewards offered by completing this challenge.
    pub reward: Rewards,
}

/// What a challenge says, with its name as a sequence of characters.
pub ghost struct ChallengeView {
    pub name: Seq<char>,
    pub target_idx: usize,
    pub abilities: u32,
    /// The mask of the rewards.
    pub reward: u32,
}

impl View for Challenge {
    type V = ChallengeView;

    open spec fn view(&self) -> ChallengeView {
        ChallengeView {
            name: self.name@,
            target_idx: self.target_idx,
            abilities: self.abilities,
            reward: self.reward.mask(),
        }
    }
}

impl Challenge {
    /// Whether the target index names a target and the cap leaves room for
    /// one more ability.
    pub open spec fn in_range(self) -> bool {
        self.target_idx < TARGETS && self.abilities < MAX_ABILITIES
    }
}

} // verus!
