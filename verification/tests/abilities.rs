use challenge_planner::abilities::{Abilities, Ability};

#[test]
fn test_ability_set() {
    let mut ability_set = Abilities::new();
    assert_eq!(ability_set[Ability::Diction], 0);
    ability_set[Ability::Diction] = 4;
    assert_eq!(ability_set[Ability::Diction], 4);
}

#[test]
fn test_ability_set_keeps_other_abilities() {
    let mut ability_set = Abilities::new();
    ability_set[Ability::Style] = 3;
    ability_set.set(Ability::Timing, 2);
    for ability in Ability::values() {
        let expected = match ability {
            Ability::Style => 3,
            Ability::Timing => 2,
            _ => 0,
        };
        assert_eq!(ability_set.get(ability), expected);
        assert_eq!(ability_set[ability], expected);
    }
}

#[test]
fn test_catalog_order_and_costs() {
    let values = Ability::values();
    let costs: Vec<u32> = values.iter().map(|a| a.cost()).collect();
    assert_eq!(costs, vec![4, 6, 8, 10, 12, 20, 30, 100]);
    for (position, ability) in values.iter().enumerate() {
        assert_eq!(Abilities::index_of(*ability), position);
    }
    assert_eq!(values[0], Ability::Atmosphere);
    assert_eq!(values[7], Ability::Timing);
}

#[test]
fn test_levels_and_cost() {
    let mut set = Abilities::new();
    assert_eq!(set.levels(), 0);
    assert_eq!(set.cost(), 0);
    set.set(Ability::Atmosphere, 2);
    set.set(Ability::Focus, 1);
    set.set(Ability::Timing, 3);
    assert_eq!(set.levels(), 6);
    assert_eq!(set.cost(), 2 * 4 + 12 + 3 * 100);
}

#[test]
fn test_add() {
    let mut left = Abilities::new();
    left.set(Ability::Diction, 4);
    left.set(Ability::Rhythm, 1);
    let mut right = Abilities::new();
    right.set(Ability::Diction, 3);
    right.set(Ability::Calmness, 5);
    let sum = left + &right;
    assert_eq!(sum[Ability::Diction], 7);
    assert_eq!(sum[Ability::Rhythm], 1);
    assert_eq!(sum[Ability::Calmness], 5);
    assert_eq!(sum[Ability::Atmosphere], 0);
    assert_eq!(sum.levels(), 13);
    assert_eq!(Abilities::default(), Abilities::new());
}
