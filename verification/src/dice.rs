//! What is rolled for one level of an ability, given the rewards in force.

use vstd::prelude::*;

use crate::abilities::Ability;
use crate::rewards::{
    Rewards, ATMOSPHERE_RANGE, CALMNESS_STRENGTH, DICTION_RANGE, DICTION_STRENGTH, PRECISION_RANGE,
    PRECISION_STRENGTH, STYLE_EXPLODING,
};

verus! {

/// The number of totals that a distribution tracks: 0 up to the greatest
/// target.
pub const LIMIT: usize = 71;

/// The faces of the style die under the exploding reward.
pub const EXPLODING_RANGE: u32 = 18;

/// What an explosion adds before its own dice are rolled.
pub const EXPLOSION_BONUS: usize = 18;

/// The faces of the two dice of an explosion.
pub const EXPLOSION_RANGES: [u32; 2] = [2, 20];

/// How many rolls in `EXPLOSION_ODDS.1` explode.
pub const EXPLOSION_ODDS: (u32, u32) = (1, 10);

/// What one level of an ability adds to the total of a check.
#[derive(Debug, Copy, Clone, PartialEq, Eq, Structural)]
pub enum Roll {
    /// A die with faces 1 to `range`, rolled with strength or without.
    Die { range: u32, strength: bool },
    /// The style die under the exploding reward: a die of `EXPLODING_RANGE`
    /// faces that, at the odds of `EXPLOSION_ODDS`, gives way to
    /// `EXPLOSION_BONUS` and a die of each of the `EXPLOSION_RANGES`.
    ExplodingStyle,
}

/// One more face where the set holds the flag.
pub open spec fn widened(cost: int, rewards: Rewards, flag: u32) -> int {
    if rewards.includes(flag) {
        cost + 1
    } else {
        cost
    }
}

/// The roll of an ability under a set of rewards. A die has as many faces
/// as a level of the ability costs; rewards widen the dice of atmosphere,
/// diction and precision by a face, give strength to those of diction,
/// precision and calmness, and replace the style die.
pub open spec fn roll_of(ability: Ability, rewards: Rewards) -> Roll {
    match ability {
        Ability::Atmosphere => Roll::Die {
            range: widened(ability.spec_cost(), rewards, ATMOSPHERE_RANGE) as u32,
            strength: false,
        },
        Ability::Diction => Roll::Die {
            range: widened(ability.spec_cost(), rewards, DICTION_RANGE) as u32,
            strength: rewards.includes(DICTION_STRENGTH),
        },
        Ability::Precision => Roll::Die {
            range: widened(ability.spec_cost(), rewards, PRECISION_RANGE) as u32,
            strength: rewards.includes(PRECISION_STRENGTH),
        },
        Ability::Calmness => Roll::Die {
            range: ability.spec_cost() as u32,
            strength: rewards.includes(CALMNESS_STRENGTH),
        },
        Ability::Style => if rewards.includes(STYLE_EXPLODING) {
            Roll::ExplodingStyle
        } else {
            Roll::Die { range: ability.spec_cost() as u32, strength: false }
        },
        _ => Roll::Die { range: ability.spec_cost() as u32, strength: false },
    }
}

/// Returns `cost`, and one more where the set holds `flag`.
fn widen(cost: u32, rewards: Rewards, flag: Rewards) -> (range: u32)
    requires
        cost <= 100,
    ensures
        range == widened(cost as int, rewards, flag.mask()),
{
    if rewards.contains(flag) {
        cost + 1
    } else {
        cost
    }
}

/// Returns the roll of an ability under a set of rewards.
pub fn roll(ability: Ability, rewards: Rewards) -> (roll: Roll)
    ensures
        roll == roll_of(ability, rewards),
        roll matches Roll::Die { range, strength } ==> 4 <= range <= 100,
{
    match ability {
        Ability::Atmosphere => Roll::Die {
            range: widen(ability.cost(), rewards, Rewards::atmosphere_range()),
            strength: false,
        },
        Ability::Diction => Roll::Die {
            range: widen(ability.cost(), rewards, Rewards::diction_range()),
            strength: rewards.contains(Rewards::diction_strength()),
        },
        Ability::Precision => Roll::Die {
            range: widen(ability.cost(), rewards, Rewards::precision_range()),
            strength: rewards.contains(Rewards::precision_strength()),
        },
        Ability::Calmness => Roll::Die {
            range: ability.cost(),
            strength: rewards.contains(Rewards::calmness_strength()),
        },
        Ability::Style => if rewards.contains(Rewards::style_exploding()) {
            Roll::ExplodingStyle
        } else {
            Roll::Die { range: ability.cost(), strength: false }
        },
        _ => Roll::Die { range: ability.cost(), strength: false },
    }
}

} // verus!
