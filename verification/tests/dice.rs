use challenge_planner::abilities::Ability;
use challenge_planner::dice::{
    roll, Roll, EXPLODING_RANGE, EXPLOSION_BONUS, EXPLOSION_ODDS, EXPLOSION_RANGES, LIMIT,
};
use challenge_planner::rewards::Rewards;

fn die(range: u32, strength: bool) -> Roll {
    Roll::Die { range, strength }
}

#[test]
fn test_rolls_without_rewards() {
    let expected = [4, 6, 8, 10, 12, 20, 30, 100];
    for (ability, range) in Ability::values().iter().zip(expected) {
        assert_eq!(roll(*ability, Rewards::none()), die(range, false));
        // one more ability per challenge changes no roll
        assert_eq!(roll(*ability, Rewards::additional_ability()), die(range, false));
    }
    assert_eq!(LIMIT, 71);
}

#[test]
fn test_exploding_roll() {
    assert_eq!(EXPLODING_RANGE, 18);
    assert_eq!(EXPLOSION_BONUS, 18);
    assert_eq!(EXPLOSION_RANGES, [2, 20]);
    assert_eq!(EXPLOSION_ODDS, (1, 10));
    assert_eq!(1.0f32 / 10.0, 0.1);
    assert_eq!(9.0f32 / 10.0, 0.9);
}

#[test]
fn test_each_reward_changes_its_roll() {
    let cases = [
        (Rewards::atmosphere_range(), Ability::Atmosphere, die(5, false)),
        (Rewards::diction_strength(), Ability::Diction, die(6, true)),
        (Rewards::diction_range(), Ability::Diction, die(7, false)),
        (Rewards::precision_strength(), Ability::Precision, die(8, true)),
        (Rewards::precision_range(), Ability::Precision, die(9, false)),
        (Rewards::calmness_strength(), Ability::Calmness, die(10, true)),
        (Rewards::style_exploding(), Ability::Style, Roll::ExplodingStyle),
    ];
    for (reward, changed, expected) in cases {
        for ability in Ability::values() {
            if ability == changed {
                assert_eq!(roll(ability, reward), expected);
            } else {
                assert_eq!(roll(ability, reward), roll(ability, Rewards::none()));
            }
        }
    }
}

#[test]
fn test_rewards_combine() {
    let all = Rewards::from_bits_truncate(0xff);
    assert_eq!(roll(Ability::Atmosphere, all), die(5, false));
    assert_eq!(roll(Ability::Diction, all), die(7, true));
    assert_eq!(roll(Ability::Precision, all), die(9, true));
    assert_eq!(roll(Ability::Calmness, all), die(10, true));
    assert_eq!(roll(Ability::Focus, all), die(12, false));
    assert_eq!(roll(Ability::Style, all), Roll::ExplodingStyle);
    assert_eq!(roll(Ability::Rhythm, all), die(30, false));
    assert_eq!(roll(Ability::Timing, all), die(100, false));
}
