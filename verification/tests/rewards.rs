use challenge_planner::rewards::{
    Rewards, ADDITIONAL_ABILITY, ALL, ATMOSPHERE_RANGE, CALMNESS_STRENGTH, DICTION_RANGE,
    DICTION_STRENGTH, NONE, PRECISION_RANGE, PRECISION_STRENGTH, STYLE_EXPLODING,
};

#[test]
fn test_flags() {
    assert_eq!(Rewards::none().bits(), NONE);
    assert_eq!(Rewards::additional_ability().bits(), ADDITIONAL_ABILITY);
    assert_eq!(Rewards::atmosphere_range().bits(), ATMOSPHERE_RANGE);
    assert_eq!(Rewards::diction_strength().bits(), DICTION_STRENGTH);
    assert_eq!(Rewards::diction_range().bits(), DICTION_RANGE);
    assert_eq!(Rewards::precision_strength().bits(), PRECISION_STRENGTH);
    assert_eq!(Rewards::precision_range().bits(), PRECISION_RANGE);
    assert_eq!(Rewards::calmness_strength().bits(), CALMNESS_STRENGTH);
    assert_eq!(Rewards::style_exploding().bits(), STYLE_EXPLODING);
    assert_eq!(
        [
            NONE,
            ADDITIONAL_ABILITY,
            ATMOSPHERE_RANGE,
            DICTION_STRENGTH,
            DICTION_RANGE,
            PRECISION_STRENGTH,
            PRECISION_RANGE,
            CALMNESS_STRENGTH,
            STYLE_EXPLODING
        ],
        [0, 1, 2, 4, 8, 16, 32, 64, 128]
    );
}

#[test]
fn test_combinations() {
    let all = Rewards::combinations();
    assert_eq!(all.len(), 256);
    for (mask, rewards) in all.iter().enumerate() {
        assert_eq!(rewards.bits() as usize, mask);
    }
}

#[test]
fn test_from_bits_truncate() {
    assert_eq!(Rewards::from_bits_truncate(0x1ff).bits(), ALL);
    assert_eq!(Rewards::from_bits_truncate(0x100).bits(), 0);
    assert_eq!(Rewards::from_bits_truncate(0x82), Rewards::style_exploding().union(Rewards::atmosphere_range()));
}

#[test]
fn test_set_operations() {
    let a = Rewards::from_bits_truncate(0b0110_0101);
    let b = Rewards::from_bits_truncate(0b0000_1100);
    assert_eq!(a.union(b).bits(), 0b0110_1101);
    assert_eq!(a.intersection(b).bits(), 0b0000_0100);
    assert_eq!(a.difference(b).bits(), 0b0110_0001);
    assert_eq!(a.symmetric_difference(b).bits(), 0b0110_1001);
    assert_eq!(a.complement().bits(), 0b1001_1010);
    assert!(a.contains(Rewards::diction_strength()));
    assert!(!a.contains(b));
    assert!(a.contains(Rewards::none()));
    assert!(Rewards::none().is_empty());
    assert!(!a.is_empty());
}

#[test]
fn test_reward_names() {
    let cases = [
        ("+1 Ability max per challenge", ADDITIONAL_ABILITY),
        ("+1 Atmosphere Range", ATMOSPHERE_RANGE),
        ("+1 Diction Strength", DICTION_STRENGTH),
        ("+1 Diction Range", DICTION_RANGE),
        ("+1 Precision Strength", DICTION_STRENGTH),
        ("+1 Precision Range", PRECISION_RANGE),
        ("+1 Calmness Strength", CALMNESS_STRENGTH),
        ("+1 Style Attempt on Style roll of 19 or 20", STYLE_EXPLODING),
        ("", NONE),
        ("None", NONE),
        ("+1 diction range", NONE),
        ("+1 Diction Range ", NONE),
    ];
    for (name, mask) in cases {
        assert_eq!(Rewards::from_name(name).bits(), mask);
        let parsed: Rewards = name.parse().unwrap();
        assert_eq!(parsed.bits(), mask);
    }
}
