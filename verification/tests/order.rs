use challenge_planner::abilities::Abilities;
use challenge_planner::challenges::Challenge;
use challenge_planner::hull::{ConvexHull, Vertex};
use challenge_planner::ord_sub::OrdSub;
use challenge_planner::order::{
    hulls_in_order, split_by_reward, Orders, SolutionTable, SolutionVertex, TOTAL_COSTS,
};
use challenge_planner::rewards::Rewards;
use challenge_planner::solver::ChallengeSolver;

fn key(value: f32) -> OrdSub {
    OrdSub::new(value.to_bits()).unwrap()
}

fn challenge(name: &str, reward: Rewards) -> Challenge {
    Challenge { name: name.to_string(), target_idx: 0, abilities: 1, reward }
}

fn challenges() -> Vec<Challenge> {
    vec![
        challenge("a", Rewards::none()),
        challenge("b", Rewards::diction_range()),
        challenge("c", Rewards::style_exploding()),
        challenge("d", Rewards::none()),
        challenge("e", Rewards::additional_ability()),
    ]
}

fn all_orders(challenges: &Vec<Challenge>) -> Vec<Vec<usize>> {
    let mut orders = Orders::new(challenges);
    let mut output = Vec::new();
    while let Some(order) = orders.next_order() {
        output.push(order);
    }
    assert!(orders.next_order().is_none());
    output
}

fn solution(cost: u32, log_proba: f32, mark: usize) -> SolutionVertex {
    SolutionVertex { cost, log_proba: key(log_proba), order: vec![mark], abilities: vec![] }
}

#[test]
fn test_split_by_reward() {
    assert_eq!(split_by_reward(&challenges()), (vec![1, 2, 4], vec![0, 3]));
    assert_eq!(split_by_reward(&vec![]), (vec![], vec![]));
}

#[test]
fn test_orders() {
    let orders = all_orders(&challenges());
    assert_eq!(
        orders,
        vec![
            vec![1, 2, 4, 0, 3],
            vec![1, 4, 2, 0, 3],
            vec![2, 1, 4, 0, 3],
            vec![2, 4, 1, 0, 3],
            vec![4, 1, 2, 0, 3],
            vec![4, 2, 1, 0, 3],
        ]
    );
}

#[test]
fn test_orders_without_rewards() {
    let list = vec![challenge("a", Rewards::none()), challenge("b", Rewards::none())];
    assert_eq!(all_orders(&list), vec![vec![0, 1]]);
    assert_eq!(all_orders(&vec![]), vec![Vec::<usize>::new()]);
}

#[test]
fn test_orders_of_four_rewards() {
    let list: Vec<Challenge> =
        (0..4).map(|i| challenge("x", Rewards::from_bits_truncate(1 << i))).collect();
    let orders = all_orders(&list);
    assert_eq!(orders.len(), 24);
    for (at, order) in orders.iter().enumerate() {
        let mut sorted = order.clone();
        sorted.sort();
        assert_eq!(sorted, vec![0, 1, 2, 3]);
        assert!(!orders[..at].contains(order));
    }
}

#[test]
fn test_hulls_in_order() {
    let list = challenges();
    let mut solver = ChallengeSolver::new(&list);
    // the hull of challenge i under the rewards of mask m has one vertex,
    // of cost 1000 * i + m
    for rewards in Rewards::combinations() {
        let hulls: Vec<ConvexHull> = (0..list.len() as u32)
            .map(|i| {
                vec![Vertex {
                    cost: 1000 * i + rewards.bits(),
                    log_proba: key(0.0),
                    slope: key(f32::MAX),
                    abilities: Abilities::new(),
                }]
            })
            .collect();
        solver.store(rewards, hulls);
    }
    assert!(solver.is_complete());
    let order = vec![2, 4, 1, 0, 3];
    let hulls = hulls_in_order(&solver, &list, &order);
    let costs: Vec<u32> = hulls.iter().map(|hull| hull[0].cost).collect();
    assert_eq!(costs, vec![2000, 4000 + 128, 1000 + 129, 137, 3000 + 137]);
    assert!(hulls_in_order(&solver, &list, &vec![]).is_empty());
}

#[test]
fn test_offer_keeps_the_better_vertex() {
    let mut table = SolutionTable::new();
    table.offer(solution(10, -2.0, 0));
    table.offer(solution(10, -3.0, 1));
    table.offer(solution(11, -2.5, 2));
    let frontier = table.frontier();
    assert_eq!(frontier.len(), 1);
    // both costs fall in one place; the greater chance stays
    assert_eq!((frontier[0].cost, frontier[0].order[0]), (10, 0));
    // among equals the later one stays
    let mut table = SolutionTable::new();
    table.offer(solution(10, -2.0, 0));
    table.offer(solution(10, -2.0, 1));
    let frontier = table.frontier();
    assert_eq!(frontier[0].order[0], 1);
}

#[test]
fn test_frontier_holds_what_improves() {
    let mut table = SolutionTable::new();
    assert_eq!(TOTAL_COSTS, 501);
    table.offer(solution(1000, -0.5, 0));
    table.offer(solution(40, -3.0, 1));
    table.offer(solution(20, -2.0, 2));
    table.offer(solution(0, -9.0, 3));
    table.offer(solution(60, -2.0, 4));
    table.offer(solution(80, -1.0, 5));
    table.offer(solution(100, -1.5, 6));
    let frontier = table.frontier();
    let kept: Vec<(u32, usize)> = frontier.iter().map(|v| (v.cost, v.order[0])).collect();
    assert_eq!(kept, vec![(0, 3), (20, 2), (80, 5), (1000, 0)]);
    assert!(SolutionTable::new().frontier().is_empty());
}
