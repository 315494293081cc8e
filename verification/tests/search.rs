use challenge_planner::abilities::{Abilities, Ability};
use challenge_planner::ord_sub::OrdSub;
use challenge_planner::search::{
    empty_table, first_difference, successor, COSTS, COUNTS, MAX_COST,
};

fn key(value: f32) -> OrdSub {
    OrdSub::new(value.to_bits()).unwrap()
}

fn levels_of(configuration: &Abilities) -> [u8; 8] {
    let mut levels = [0; 8];
    for (position, level) in levels.iter_mut().enumerate() {
        *level = configuration.peek(position);
    }
    levels
}

fn configuration(levels: [u8; 8]) -> Abilities {
    let mut configuration = Abilities::new();
    for (position, level) in levels.iter().enumerate() {
        configuration.put(position, *level);
    }
    configuration
}

/// Counts the configurations within the limits whose first `position`
/// abilities are fixed.
fn count_within(position: usize, levels_left: u32, cost_left: u32) -> u64 {
    if position == 8 {
        return 1;
    }
    let price = Ability::values()[position].cost();
    let mut count = 0;
    let mut level = 0;
    while level <= levels_left && level * price <= cost_left {
        count += count_within(position + 1, levels_left - level, cost_left - level * price);
        level += 1;
    }
    count
}

#[test]
fn test_successor_of_the_empty_configuration() {
    let next = successor(&Abilities::new()).unwrap();
    assert_eq!(levels_of(&next), [0, 0, 0, 0, 0, 0, 0, 1]);
}

#[test]
fn test_successor_carries() {
    // a fourth level of timing would cost 400
    let next = successor(&configuration([0, 0, 0, 0, 0, 0, 0, 3])).unwrap();
    assert_eq!(levels_of(&next), [0, 0, 0, 0, 0, 0, 1, 0]);
    // sixteen levels are the most
    let next = successor(&configuration([1, 0, 0, 14, 0, 0, 0, 0])).unwrap();
    assert_eq!(levels_of(&next), [1, 0, 0, 14, 0, 0, 0, 1]);
    let next = successor(&configuration([1, 0, 0, 14, 0, 0, 0, 1])).unwrap();
    assert_eq!(levels_of(&next), [1, 0, 0, 14, 0, 0, 1, 0]);
    let next = successor(&configuration([1, 0, 0, 14, 0, 0, 1, 0])).unwrap();
    assert_eq!(levels_of(&next), [1, 0, 0, 14, 0, 1, 0, 0]);
    let next = successor(&configuration([2, 0, 0, 14, 0, 0, 0, 0])).unwrap();
    assert_eq!(levels_of(&next), [2, 0, 1, 0, 0, 0, 0, 0]);
    let next = successor(&configuration([1, 0, 0, 15, 0, 0, 0, 0])).unwrap();
    assert_eq!(levels_of(&next), [1, 0, 1, 0, 0, 0, 0, 0]);
    let next = successor(&configuration([1, 15, 0, 0, 0, 0, 0, 0])).unwrap();
    assert_eq!(levels_of(&next), [2, 0, 0, 0, 0, 0, 0, 0]);
}

#[test]
fn test_successor_of_the_last_configuration() {
    assert!(successor(&configuration([16, 0, 0, 0, 0, 0, 0, 0])).is_none());
    assert!(successor(&configuration([16, 3, 0, 0, 0, 0, 0, 9])).is_none());
    assert!(successor(&configuration([255; 8])).is_none());
}

#[test]
fn test_successor_from_beyond_the_limits() {
    // the next one within the limits, though this one is not
    let next = successor(&configuration([0, 0, 0, 0, 0, 0, 0, 200])).unwrap();
    assert_eq!(levels_of(&next), [0, 0, 0, 0, 0, 0, 1, 0]);
}

#[test]
fn test_successor_visits_every_configuration_once() {
    let mut current = Abilities::new();
    let mut visited: u64 = 1;
    while let Some(next) = successor(&current) {
        assert!(levels_of(&next) > levels_of(&current));
        assert!(next.levels() <= 16);
        assert!(next.cost() <= MAX_COST as u32);
        current = next;
        visited += 1;
    }
    assert_eq!(levels_of(&current), [16, 0, 0, 0, 0, 0, 0, 0]);
    assert_eq!(visited, count_within(0, 16, MAX_COST as u32));
}

#[test]
fn test_empty_table() {
    let table = empty_table();
    for bucket in [0, 1, COSTS - 1] {
        for count in [0, 7, COUNTS - 1] {
            for target in [0, 8] {
                let entry = table.get(bucket, count, target);
                assert_eq!(entry.proba.bits(), 0);
                assert_eq!(entry.abilities, Abilities::new());
            }
        }
    }
}

#[test]
fn test_record() {
    let mut table = empty_table();
    let first = configuration([1, 0, 1, 0, 0, 0, 0, 0]);
    let chances = [0.9, 0.8, 0.7, 0.6, 0.5, 0.4, 0.3, 0.2, 0.0].map(key);
    table.record(&first, &chances);
    for target in 0..9 {
        let entry = table.get(6, 2, target);
        assert_eq!(entry.proba.bits(), chances[target].bits());
        assert_eq!(entry.abilities, first);
    }
    // nothing else is touched
    assert_eq!(table.get(6, 1, 0).proba.bits(), 0);
    assert_eq!(table.get(5, 2, 0).proba.bits(), 0);
    assert_eq!(table.get(7, 2, 8).abilities, Abilities::new());
    // same cost and levels: a chance that is not below replaces, one below does not
    let second = configuration([0, 2, 0, 0, 0, 0, 0, 0]);
    let chances = [0.95, 0.8, 0.6, 0.6, 0.1, 0.5, 0.3, 0.1, 0.0].map(key);
    table.record(&second, &chances);
    let expected = [
        (0.95, second),
        (0.8, second),
        (0.7, first),
        (0.6, second),
        (0.5, first),
        (0.5, second),
        (0.3, second),
        (0.2, first),
        (0.0, second),
    ];
    for (target, (chance, abilities)) in expected.iter().enumerate() {
        let entry = table.get(6, 2, target);
        assert_eq!(entry.proba.bits(), key(*chance).bits());
        assert_eq!(entry.abilities, *abilities);
    }
}

#[test]
fn test_record_skips_what_costs_too_much() {
    let mut table = empty_table();
    let chances = [1.0; 9].map(key);
    // 302 points
    table.record(&configuration([0, 0, 0, 0, 1, 0, 3, 2]), &chances);
    for bucket in 0..COSTS {
        for count in 0..COUNTS {
            assert_eq!(table.get(bucket, count, 0).proba.bits(), 0);
        }
    }
    // 300 points
    table.record(&configuration([0, 0, 0, 0, 0, 0, 0, 3]), &chances);
    assert_eq!(table.get(150, 3, 4).proba.bits(), key(1.0).bits());
}

#[test]
fn test_ability_cummax() {
    let mut table = empty_table();
    let one = configuration([3, 0, 0, 0, 0, 0, 0, 0]);
    let two = configuration([0, 2, 0, 0, 0, 0, 0, 0]);
    let three = configuration([1, 0, 1, 0, 0, 0, 0, 0]);
    // all cost 12: three, two and two levels
    table.record(&one, &[0.5, 0.1, 0.0, 0.0, 0.0, 0.0, 0.0, 0.0, 0.0].map(key));
    table.record(&two, &[0.7, 0.3, 0.0, 0.0, 0.0, 0.0, 0.0, 0.0, 0.0].map(key));
    table.record(&three, &[0.6, 0.3, 0.0, 0.0, 0.0, 0.0, 0.0, 0.0, 0.0].map(key));
    table.ability_cummax();
    // below two levels nothing was found
    assert_eq!(table.get(6, 1, 0).proba.bits(), 0);
    // two levels: the better one, and among equals the later one
    assert_eq!(table.get(6, 2, 0).abilities, two);
    assert_eq!(table.get(6, 2, 1).abilities, three);
    // three levels and more: using fewer is allowed
    for count in 3..COUNTS {
        assert_eq!(table.get(6, count, 0).abilities, two);
        assert_eq!(table.get(6, count, 0).proba.bits(), key(0.7).bits());
        assert_eq!(table.get(6, count, 1).abilities, three);
    }
    // where nothing is better, the entry with more levels stays
    assert_eq!(table.get(6, 3, 2).abilities, one);
    assert_eq!(table.get(6, 2, 2).abilities, three);
    assert_eq!(table.get(6, 16, 2).abilities, Abilities::new());
    // other costs are untouched
    assert_eq!(table.get(5, 16, 0).proba.bits(), 0);
}

#[test]
fn test_column() {
    let mut table = empty_table();
    let chances = [0.9, 0.8, 0.7, 0.6, 0.5, 0.4, 0.3, 0.2, 0.1].map(key);
    let bought = configuration([0, 0, 0, 1, 0, 1, 0, 0]);
    table.record(&bought, &chances);
    let column = table.column(3, 2);
    assert_eq!(column.len(), COSTS);
    for (bucket, entry) in column.iter().enumerate() {
        if bucket == 15 {
            assert_eq!(entry.proba.bits(), key(0.6).bits());
            assert_eq!(entry.abilities, bought);
        } else {
            assert_eq!(entry.proba.bits(), 0);
        }
    }
    assert_eq!(table.column(3, 1)[15].proba.bits(), 0);
    assert_eq!(table.column(4, 2)[15].proba.bits(), key(0.5).bits());
}

#[test]
fn test_first_difference() {
    let a = configuration([1, 2, 3, 4, 5, 6, 7, 8]);
    assert_eq!(first_difference(&a, &a), 8);
    assert_eq!(first_difference(&a, &configuration([1, 2, 3, 4, 5, 6, 7, 9])), 7);
    assert_eq!(first_difference(&a, &configuration([1, 2, 0, 4, 0, 6, 7, 8])), 2);
    assert_eq!(first_difference(&a, &configuration([0, 2, 3, 4, 5, 6, 7, 8])), 0);
    // a successor differs at the position that it raises
    let current = configuration([1, 0, 0, 15, 0, 0, 0, 0]);
    assert_eq!(first_difference(&current, &successor(&current).unwrap()), 2);
}
