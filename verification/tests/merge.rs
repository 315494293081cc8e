use challenge_planner::abilities::{Abilities, Ability};
use challenge_planner::hull::Vertex;
use challenge_planner::merge::{can_merge, merge_hulls, ChallengesVertex, MAX_TOTAL_COST};
use challenge_planner::ord_sub::OrdSub;

fn key(value: f32) -> OrdSub {
    OrdSub::new(value.to_bits()).unwrap()
}

fn value(key: OrdSub) -> f32 {
    f32::from_bits(key.bits())
}

fn vertex(cost: u32, log_proba: f32, slope: f32) -> Vertex {
    Vertex { cost, log_proba: key(log_proba), slope: key(slope), abilities: Abilities::new() }
}

/// The logarithm of the chance of each vertex of a frontier: that of the
/// first vertices together, then what each advance gains.
fn log_probas(hulls: &Vec<Vec<Vertex>>, frontier: &Vec<ChallengesVertex>) -> Vec<f32> {
    let mut output = Vec::new();
    let mut log_proba = 0.0;
    for merged in frontier {
        match merged.advanced {
            None => {
                for hull in hulls {
                    log_proba += value(hull[0].log_proba);
                }
            }
            Some(hull) => {
                let idx = merged.picks[hull];
                log_proba +=
                    value(hulls[hull][idx].log_proba) - value(hulls[hull][idx - 1].log_proba);
            }
        }
        output.push(log_proba);
    }
    output
}

fn merge(hulls: &Vec<Vec<Vertex>>) -> Vec<ChallengesVertex> {
    let hulls: Vec<&Vec<Vertex>> = hulls.iter().collect();
    assert!(can_merge(&hulls));
    merge_hulls(&hulls)
}

#[test]
fn test_merge_hulls() {
    let hulls = vec![
        vec![
            Vertex { cost: 5, log_proba: key(-1.0), slope: key(0.0), abilities: Abilities::new() },
            Vertex { cost: 6, log_proba: key(-0.5), slope: key(0.5), abilities: Abilities::new() },
        ],
        vec![
            Vertex { cost: 1, log_proba: key(-2.0), slope: key(0.0), abilities: Abilities::new() },
            Vertex { cost: 5, log_proba: key(-1.0), slope: key(0.25), abilities: Abilities::new() },
        ],
    ];
    let merged_hull = merge(&hulls);
    let log_proba = log_probas(&hulls, &merged_hull);
    assert_eq!(merged_hull.len(), 3);
    assert_eq!(merged_hull[0].cost, 6);
    assert_eq!(log_proba[0], -3.0);
    assert_eq!(merged_hull[1].cost, 7);
    assert_eq!(log_proba[1], -2.5);
    assert_eq!(merged_hull[2].cost, 11);
    assert_eq!(log_proba[2], -1.5);
}

#[test]
fn test_merge_names_its_picks() {
    let mut one = Abilities::new();
    one.set(Ability::Focus, 1);
    let mut two = Abilities::new();
    two.set(Ability::Focus, 2);
    let mut other = Abilities::new();
    other.set(Ability::Style, 1);
    let hulls = vec![
        vec![
            Vertex { cost: 12, log_proba: key(-3.0), slope: key(f32::MAX), abilities: one },
            Vertex { cost: 24, log_proba: key(-1.0), slope: key(2.0 / 12.0), abilities: two },
        ],
        vec![Vertex { cost: 20, log_proba: key(-0.5), slope: key(f32::MAX), abilities: other }],
    ];
    let merged = merge(&hulls);
    assert_eq!(merged.len(), 2);
    assert_eq!(merged[0].cost, 32);
    assert_eq!(merged[0].advanced, None);
    assert_eq!(merged[0].picks, vec![0, 0]);
    assert_eq!(merged[0].configuration, vec![one, other]);
    assert_eq!(merged[1].cost, 44);
    assert_eq!(merged[1].advanced, Some(0));
    assert_eq!(merged[1].picks, vec![1, 0]);
    assert_eq!(merged[1].configuration, vec![two, other]);
    assert_eq!(log_probas(&hulls, &merged), vec![-3.5, -1.5]);
}

#[test]
fn test_merge_with_an_empty_hull_is_empty() {
    let hulls = vec![vec![vertex(2, -1.0, f32::MAX)], vec![]];
    assert!(merge(&hulls).is_empty());
    let hulls = vec![vec![], vec![vertex(2, -1.0, f32::MAX)]];
    assert!(merge(&hulls).is_empty());
}

#[test]
fn test_merge_of_no_hulls_is_one_vertex() {
    let merged = merge(&vec![]);
    assert_eq!(merged.len(), 1);
    assert_eq!(merged[0].cost, 0);
    assert!(merged[0].picks.is_empty());
    assert!(merged[0].configuration.is_empty());
}

#[test]
fn test_merge_breaks_ties_by_cost_then_by_hull() {
    // equal slopes: the greater step goes first
    let hulls = vec![
        vec![vertex(0, -4.0, f32::MAX), vertex(4, -2.0, 0.5)],
        vec![vertex(0, -4.0, f32::MAX), vertex(2, -3.0, 0.5)],
    ];
    let merged = merge(&hulls);
    let advanced: Vec<Option<usize>> = merged.iter().map(|v| v.advanced).collect();
    assert_eq!(advanced, vec![None, Some(0), Some(1)]);
    // equal slopes and steps: the later hull goes first
    let hulls = vec![
        vec![vertex(0, -4.0, f32::MAX), vertex(2, -3.0, 0.5)],
        vec![vertex(0, -4.0, f32::MAX), vertex(2, -3.0, 0.5)],
        vec![vertex(0, -4.0, f32::MAX), vertex(2, -3.5, 0.25)],
    ];
    let merged = merge(&hulls);
    let advanced: Vec<Option<usize>> = merged.iter().map(|v| v.advanced).collect();
    assert_eq!(advanced, vec![None, Some(1), Some(0), Some(2)]);
    let costs: Vec<u32> = merged.iter().map(|v| v.cost).collect();
    assert_eq!(costs, vec![0, 2, 4, 6]);
    // the two zeros are one slope
    let hulls = vec![
        vec![vertex(0, -4.0, f32::MAX), vertex(2, -4.0, 0.0)],
        vec![vertex(0, -4.0, f32::MAX), vertex(1, -4.0, -0.0)],
    ];
    let merged = merge(&hulls);
    let advanced: Vec<Option<usize>> = merged.iter().map(|v| v.advanced).collect();
    assert_eq!(advanced, vec![None, Some(0), Some(1)]);
}

#[test]
fn test_merge_follows_each_hull_in_order() {
    let hulls = vec![
        vec![vertex(0, -9.0, f32::MAX), vertex(2, -5.0, 2.0), vertex(6, -3.0, 0.5)],
        vec![vertex(4, -8.0, f32::MAX), vertex(6, -6.0, 1.0), vertex(10, -5.0, 0.25)],
    ];
    let merged = merge(&hulls);
    let picks: Vec<Vec<usize>> = merged.iter().map(|v| v.picks.clone()).collect();
    assert_eq!(picks, vec![vec![0, 0], vec![1, 0], vec![1, 1], vec![2, 1], vec![2, 2]]);
    let costs: Vec<u32> = merged.iter().map(|v| v.cost).collect();
    assert_eq!(costs, vec![4, 6, 8, 12, 16]);
    assert_eq!(log_probas(&hulls, &merged), vec![-17.0, -13.0, -11.0, -9.0, -8.0]);
}

#[test]
fn test_merge_stops_at_the_cost_ceiling() {
    let hulls = vec![
        vec![vertex(0, -9.0, f32::MAX), vertex(600, -5.0, 2.0), vertex(1000, -3.0, 0.5)],
        vec![vertex(0, -8.0, f32::MAX), vertex(2, -7.0, 0.25)],
    ];
    let merged = merge(&hulls);
    let costs: Vec<u32> = merged.iter().map(|v| v.cost).collect();
    // the second step of the first hull leads to exactly the ceiling and is
    // taken; the step after it would pass the ceiling, and ends the merge
    assert_eq!(costs, vec![0, 600, MAX_TOTAL_COST]);
    let hulls = vec![
        vec![vertex(0, -9.0, f32::MAX), vertex(600, -5.0, 2.0), vertex(1002, -3.0, 0.5)],
        vec![vertex(0, -8.0, f32::MAX), vertex(2, -7.0, 0.25)],
    ];
    let merged = merge(&hulls);
    let costs: Vec<u32> = merged.iter().map(|v| v.cost).collect();
    assert_eq!(costs, vec![0, 600]);
    // the first vertex is given whatever it costs
    let hulls = vec![vec![vertex(4000, -9.0, f32::MAX), vertex(4002, -5.0, 2.0)]];
    let merged = merge(&hulls);
    assert_eq!(merged.len(), 1);
    assert_eq!(merged[0].cost, 4000);
}

#[test]
fn test_can_merge() {
    let fits = |hulls: &Vec<Vec<Vertex>>| can_merge(&hulls.iter().collect());
    assert!(fits(&vec![]));
    assert!(fits(&vec![vec![], vec![vertex(u32::MAX, -1.0, 1.0)], vec![vertex(9, -1.0, 1.0)]]));
    assert!(fits(&vec![vec![vertex(u32::MAX - 9, -1.0, 1.0)], vec![vertex(9, -1.0, 1.0)]]));
    // the first vertices cost too much together
    assert!(!fits(&vec![vec![vertex(u32::MAX - 9, -1.0, 1.0)], vec![vertex(10, -1.0, 1.0)]]));
    // equal costs are no fall
    assert!(fits(&vec![vec![vertex(4, -2.0, 1.0), vertex(4, -1.0, 1.0), vertex(6, -1.0, 1.0)]]));
    // a cost that falls
    assert!(!fits(&vec![vec![vertex(4, -2.0, 1.0), vertex(6, -1.0, 1.0), vertex(5, -1.0, 1.0)]]));
    assert!(!fits(&vec![vec![], vec![vertex(4, -2.0, 1.0), vertex(3, -1.0, 1.0)]]));
}
