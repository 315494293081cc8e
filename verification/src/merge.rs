//! The merge of the hulls of several challenges into one frontier of total
//! cost against the chance to pass them all.
//!
//! The merge starts from the first vertex of every hull and then advances
//! one hull at a time by one vertex, always the hull whose next vertex has
//! the steepest slope. Each state reached is a vertex of the frontier. The
//! logarithm of the chance of a state is the sum of the logarithms of the
//! vertices that it picks; the merge names the picks and leaves the sum to
//! its caller.

use vstd::prelude::*;

use crate::abilities::Abilities;
use crate::hull::Vertex;

verus! {

/// The maximum cost to consider spending on the challenges.
pub const MAX_TOTAL_COST: u32 = 1000;

/// A vertex of the frontier of several challenges.
#[derive(Debug)]
pub struct ChallengesVertex {
    /// The total cost of the challenges.
    pub cost: u32,
    /// The challenge whose hull was advanced to reach this vertex; none for
    /// the first vertex.
    pub advanced: Option<usize>,
    /// For each challenge, the index of the vertex picked on its hull.
    pub picks: Vec<usize>,
    /// The configuration of abilities for each challenge.
    pub configuration: Vec<Abilities>,
}

/// The hulls as sequences.
pub open spec fn views(hulls: Seq<&Vec<Vertex>>) -> Seq<Seq<Vertex>> {
    Seq::new(hulls.len(), |i: int| hulls[i]@)
}

/// The picks before any hull is advanced: the first vertex of each.
pub open spec fn first_picks(count: nat) -> Seq<usize> {
    Seq::new(count, |i: int| 0usize)
}

/// Whether the picks name a vertex on each hull.
pub open spec fn picks_fit(hulls: Seq<Seq<Vertex>>, picks: Seq<usize>) -> bool {
    &&& picks.len() == hulls.len()
    &&& forall|i: int| 0 <= i < hulls.len() ==> (#[trigger] picks[i]) < hulls[i].len()
}

/// The cost of the picked vertices of the first `count` hulls together.
pub open spec fn total_cost(hulls: Seq<Seq<Vertex>>, picks: Seq<usize>, count: int) -> int
    decreases count,
{
    if count <= 0 {
        0
    } else {
        total_cost(hulls, picks, count - 1) + hulls[count - 1][picks[count - 1] as int].cost
    }
}

/// The number of vertices after the picked ones on the first `count` hulls.
pub open spec fn vertices_left(hulls: Seq<Seq<Vertex>>, picks: Seq<usize>, count: int) -> int
    decreases count,
{
    if count <= 0 {
        0
    } else {
        vertices_left(hulls, picks, count - 1) + hulls[count - 1].len() - 1 - picks[count - 1]
    }
}

/// Whether hull `i` has a vertex after the picked one.
pub open spec fn can_advance(hulls: Seq<Seq<Vertex>>, picks: Seq<usize>, i: int) -> bool {
    0 <= i < hulls.len() && picks[i] + 1 < hulls[i].len()
}

/// The cost of advancing hull `i`: what its next vertex costs more than
/// the picked one.
pub open spec fn marginal_cost(hulls: Seq<Seq<Vertex>>, picks: Seq<usize>, i: int) -> int {
    hulls[i][picks[i] + 1].cost - hulls[i][picks[i] as int].cost
}

/// Whether advancing hull `i` goes before advancing hull `j`: the steeper
/// slope first, then the greater cost, then the later hull.
pub open spec fn goes_before(hulls: Seq<Seq<Vertex>>, picks: Seq<usize>, i: int, j: int) -> bool {
    let slope_i = hulls[i][picks[i] + 1].slope.rank();
    let slope_j = hulls[j][picks[j] + 1].slope.rank();
    let cost_i = marginal_cost(hulls, picks, i);
    let cost_j = marginal_cost(hulls, picks, j);
    slope_i > slope_j || (slope_i == slope_j && (cost_i > cost_j || (cost_i == cost_j && i > j)))
}

/// Whether hull `i` is the one to advance: it can be, and goes before every
/// other hull that can be.
#[verifier::opaque]
pub open spec fn is_next(hulls: Seq<Seq<Vertex>>, picks: Seq<usize>, i: int) -> bool {
    &&& can_advance(hulls, picks, i)
    &&& forall|j: int|
        #![trigger can_advance(hulls, picks, j)]
        can_advance(hulls, picks, j) && j != i ==> goes_before(hulls, picks, i, j)
}

/// Whether the merge ends at these picks: no hull can be advanced, or the
/// one to advance would bring the cost above `MAX_TOTAL_COST`.
#[verifier::opaque]
pub open spec fn is_last(hulls: Seq<Seq<Vertex>>, picks: Seq<usize>) -> bool {
    forall|i: int|
        #![trigger is_next(hulls, picks, i)]
        is_next(hulls, picks, i) ==> total_cost(hulls, picks, hulls.len() as int) + marginal_cost(
            hulls,
            picks,
            i,
        ) > MAX_TOTAL_COST
}

/// Whether a vertex of the frontier states its picks truly: its cost is
/// that of the picked vertices together, and its configuration holds
/// theirs.
#[verifier::opaque]
pub open spec fn states_picks(hulls: Seq<Seq<Vertex>>, vertex: ChallengesVertex) -> bool {
    &&& picks_fit(hulls, vertex.picks@)
    &&& vertex.cost == total_cost(hulls, vertex.picks@, hulls.len() as int)
    &&& vertex.configuration.len() == hulls.len()
    &&& forall|i: int|
        0 <= i < hulls.len() ==> (#[trigger] vertex.configuration[i])
            == hulls[i][vertex.picks[i] as int].abilities
}

/// Whether `later` follows `earlier` on the frontier: it advances the hull
/// that is next by one vertex and leaves the other picks.
#[verifier::opaque]
pub open spec fn follows(
    hulls: Seq<Seq<Vertex>>,
    earlier: ChallengesVertex,
    later: ChallengesVertex,
) -> bool {
    match later.advanced {
        Some(i) => is_next(hulls, earlier.picks@, i as int) && later.picks@ == earlier.picks@.update(
            i as int,
            (earlier.picks[i as int] + 1) as usize,
        ),
        None => false,
    }
}

/// Whether `frontier` is the merge of `hulls`.
///
/// Where a hull is empty, so is the frontier. Else its first vertex picks
/// the first vertex of every hull, each further vertex follows the one
/// before, none but the first costs more than `MAX_TOTAL_COST`, and the
/// merge ends at the last.
pub open spec fn is_merge(hulls: Seq<Seq<Vertex>>, frontier: Seq<ChallengesVertex>) -> bool {
    if some_empty(hulls) {
        frontier.len() == 0
    } else {
        &&& frontier.len() > 0
        &&& frontier[0].picks@ == first_picks(hulls.len())
        &&& frontier[0].advanced is None
        &&& forall|k: int| 0 <= k < frontier.len() ==> states_picks(hulls, #[trigger] frontier[k])
        &&& forall|k: int|
            0 < k < frontier.len() ==> follows(hulls, frontier[k - 1], #[trigger] frontier[k])
                && frontier[k].cost <= MAX_TOTAL_COST
        &&& is_last(hulls, frontier.last().picks@)
    }
}

/// Whether costs do not fall along a hull.
pub open spec fn grows_along(hull: Seq<Vertex>) -> bool {
    forall|p: int|
        #![trigger hull[p]]
        0 <= p && p + 1 < hull.len() ==> hull[p].cost <= hull[p + 1].cost
}

/// Whether costs do not fall along any of the hulls.
pub open spec fn costs_grow(hulls: Seq<Seq<Vertex>>) -> bool {
    forall|i: int| 0 <= i < hulls.len() ==> grows_along(#[trigger] hulls[i])
}

/// Whether a hull is empty.
pub open spec fn some_empty(hulls: Seq<Seq<Vertex>>) -> bool {
    exists|i: int| 0 <= i < hulls.len() && (#[trigger] hulls[i]).len() == 0
}

/// Whether the hulls can be merged: costs do not fall along any of them
/// and, unless a hull is empty, the first vertices together cost no more
/// than a `u32` holds.
pub open spec fn mergeable(hulls: Seq<Seq<Vertex>>) -> bool {
    &&& costs_grow(hulls)
    &&& some_empty(hulls) || total_cost(hulls, first_picks(hulls.len()), hulls.len() as int)
        <= u32::MAX
}

/// Advancing hull `i` adds its marginal cost to the total, and leaves one
/// vertex less.
pub proof fn lemma_advance(hulls: Seq<Seq<Vertex>>, picks: Seq<usize>, i: int, count: int)
    requires
        picks_fit(hulls, picks),
        can_advance(hulls, picks, i),
        hulls[i].len() <= usize::MAX,
        0 <= count <= hulls.len(),
    ensures
        total_cost(hulls, picks.update(i, (picks[i] + 1) as usize), count) == total_cost(
            hulls,
            picks,
            count,
        ) + if i < count {
            marginal_cost(hulls, picks, i)
        } else {
            0
        },
        vertices_left(hulls, picks.update(i, (picks[i] + 1) as usize), count) == vertices_left(
            hulls,
            picks,
            count,
        ) - if i < count {
            1int
        } else {
            0int
        },
        vertices_left(hulls, picks, count) >= if i < count {
            1int
        } else {
            0int
        },
    decreases count,
{
    if count > 0 {
        lemma_advance(hulls, picks, i, count - 1);
        assert(picks[count - 1] < hulls[count - 1].len());
    }
}

/// The cost of the picked vertices of some hulls is at most that of more.
pub proof fn lemma_total_cost_grows(
    hulls: Seq<Seq<Vertex>>,
    picks: Seq<usize>,
    fewer: int,
    more: int,
)
    requires
        fewer <= more,
    ensures
        total_cost(hulls, picks, fewer) <= total_cost(hulls, picks, more),
    decreases more - fewer,
{
    if fewer < more {
        lemma_total_cost_grows(hulls, picks, fewer, more - 1);
    }
}

/// At most one hull is the one to advance.
pub proof fn lemma_next_is_one(hulls: Seq<Seq<Vertex>>, picks: Seq<usize>, i: int, j: int)
    requires
        is_next(hulls, picks, i),
        is_next(hulls, picks, j),
    ensures
        i == j,
{
    reveal(is_next);
    if i != j {
        assert(can_advance(hulls, picks, i));
        assert(can_advance(hulls, picks, j));
        assert(goes_before(hulls, picks, i, j));
        assert(goes_before(hulls, picks, j, i));
    }
}

/// The merge ends where no hull can be advanced.
proof fn lemma_last_without_next(hulls: Seq<Seq<Vertex>>, picks: Seq<usize>)
    requires
        forall|j: int| !can_advance(hulls, picks, j),
    ensures
        is_last(hulls, picks),
{
    reveal(is_next);
    reveal(is_last);
}

/// The merge ends where the hull to advance costs too much.
proof fn lemma_last_over_cost(hulls: Seq<Seq<Vertex>>, picks: Seq<usize>, next: int)
    requires
        is_next(hulls, picks, next),
        total_cost(hulls, picks, hulls.len() as int) + marginal_cost(hulls, picks, next)
            > MAX_TOTAL_COST,
    ensures
        is_last(hulls, picks),
{
    reveal(is_last);
    assert forall|i: int| is_next(hulls, picks, i) implies total_cost(
        hulls,
        picks,
        hulls.len() as int,
    ) + marginal_cost(hulls, picks, i) > MAX_TOTAL_COST by {
        lemma_next_is_one(hulls, picks, i, next);
    }
}

/// The slope at which a vertex of the frontier was reached: that of the
/// vertex picked on the hull that was advanced.
pub open spec fn slope_taken(hulls: Seq<Seq<Vertex>>, vertex: ChallengesVertex) -> int {
    hulls[vertex.advanced->0 as int][vertex.picks[vertex.advanced->0 as int] as int].slope.rank()
}

/// Costs do not fall along the frontier: a vertex costs what the vertex
/// before costs and the step of the hull that was advanced.
pub proof fn lemma_frontier_costs(
    hulls: Seq<Seq<Vertex>>,
    frontier: Seq<ChallengesVertex>,
    k: int,
)
    requires
        costs_grow(hulls),
        is_merge(hulls, frontier),
        forall|i: int| 0 <= i < hulls.len() ==> (#[trigger] hulls[i]).len() <= usize::MAX,
        0 < k < frontier.len(),
    ensures
        frontier[k].advanced matches Some(i) && frontier[k].cost == frontier[k - 1].cost
            + marginal_cost(hulls, frontier[k - 1].picks@, i as int),
        frontier[k - 1].cost <= frontier[k].cost,
{
    reveal(follows);
    reveal(states_picks);
    reveal(is_next);
    let earlier = frontier[k - 1];
    let later = frontier[k];
    assert(states_picks(hulls, earlier));
    assert(states_picks(hulls, later));
    assert(follows(hulls, earlier, later));
    let i = later.advanced->0 as int;
    lemma_advance(hulls, earlier.picks@, i, hulls.len() as int);
    assert(hulls[i][earlier.picks[i] as int].cost <= hulls[i][earlier.picks[i] + 1].cost);
}

/// Where slopes fall along every hull, they do not rise along the
/// frontier: no vertex is reached at a steeper slope than the one before.
pub proof fn lemma_frontier_slopes(
    hulls: Seq<Seq<Vertex>>,
    frontier: Seq<ChallengesVertex>,
    k: int,
)
    requires
        is_merge(hulls, frontier),
        forall|i: int, p: int|
            #![trigger hulls[i][p]]
            0 <= i < hulls.len() && 0 <= p && p + 1 < hulls[i].len() ==> hulls[i][p].slope.rank()
                >= hulls[i][p + 1].slope.rank(),
        forall|i: int| 0 <= i < hulls.len() ==> (#[trigger] hulls[i]).len() <= usize::MAX,
        1 < k < frontier.len(),
    ensures
        slope_taken(hulls, frontier[k - 1]) >= slope_taken(hulls, frontier[k]),
{
    reveal(follows);
    reveal(states_picks);
    reveal(is_next);
    let first = frontier[k - 2];
    let second = frontier[k - 1];
    let third = frontier[k];
    assert(states_picks(hulls, first));
    assert(follows(hulls, first, second));
    assert(follows(hulls, second, third));
    let i = second.advanced->0 as int;
    let j = third.advanced->0 as int;
    if i == j {
        let p = first.picks[i] as int + 1;
        assert(hulls[i][p].slope.rank() >= hulls[i][p + 1].slope.rank());
    } else {
        assert(can_advance(hulls, first.picks@, j));
        assert(goes_before(hulls, first.picks@, i, j));
    }
}

/// Returns the hull to advance, or nothing where none can be advanced.
fn next_hull(hulls: &Vec<&Vec<Vertex>>, picks: &Vec<usize>) -> (next: Option<usize>)
    requires
        picks_fit(views(hulls@), picks@),
        costs_grow(views(hulls@)),
    ensures
        match next {
            Some(i) => is_next(views(hulls@), picks@, i as int),
            None => forall|j: int| !can_advance(views(hulls@), picks@, j),
        },
{
    let ghost all = views(hulls@);
    let mut next: Option<usize> = None;
    let mut j: usize = 0;
    proof {
        reveal(is_next);
    }
    while j < hulls.len()
        invariant
            j <= hulls.len(),
            all == views(hulls@),
            picks_fit(all, picks@),
            costs_grow(all),
            match next {
                Some(i) => i < j && can_advance(all, picks@, i as int) && forall|k: int|
                    #![trigger can_advance(all, picks@, k)]
                    0 <= k < j && can_advance(all, picks@, k) && k != i ==> goes_before(
                        all,
                        picks@,
                        i as int,
                        k,
                    ),
                None => forall|k: int|
                    #![trigger can_advance(all, picks@, k)]
                    0 <= k < j ==> !can_advance(all, picks@, k),
            },
        decreases hulls.len() - j,
    {
        let hull: &Vec<Vertex> = hulls[j];
        assert(all[j as int] == hull@);
        assert(picks[j as int] < all[j as int].len());
        let pick: usize = picks[j];
        assert(pick < hull.len());
        if pick + 1 < hull.len() {
            match next {
                None => {
                    next = Some(j);
                },
                Some(i) => {
                    let other: &Vec<Vertex> = hulls[i];
                    assert(all[i as int] == other@);
                    let other_pick: usize = picks[i];
                    assert(other_pick + 1 < other.len());
                    assert(all[j as int][pick as int].cost <= all[j as int][pick + 1].cost);
                    assert(all[i as int][other_pick as int].cost <= all[i as int][other_pick
                        + 1].cost);
                    let slope = hull[pick + 1].slope;
                    let other_slope = other[other_pick + 1].slope;
                    let cost: u32 = hull[pick + 1].cost - hull[pick].cost;
                    let other_cost: u32 = other[other_pick + 1].cost - other[other_pick].cost;
                    // The later hull goes first among equals.
                    if slope > other_slope || (slope == other_slope && cost >= other_cost) {
                        assert(goes_before(all, picks@, j as int, i as int));
                        next = Some(j);
                    } else {
                        assert(goes_before(all, picks@, i as int, j as int));
                    }
                },
            }
        }
        j += 1;
    }
    next
}

/// Returns a copy of a list of picks.
fn copy_picks(picks: &Vec<usize>) -> (copy: Vec<usize>)
    ensures
        copy@ == picks@,
{
    let mut copy: Vec<usize> = Vec::new();
    let mut i: usize = 0;
    while i < picks.len()
        invariant
            i <= picks.len(),
            copy@ == picks@.take(i as int),
        decreases picks.len() - i,
    {
        copy.push(picks[i]);
        assert(picks@.take(i + 1) =~= picks@.take(i as int).push(picks[i as int]));
        i += 1;
    }
    assert(picks@.take(picks.len() as int) =~= picks@);
    copy
}

/// Returns a copy of a list of configurations.
fn copy_configuration(configuration: &Vec<Abilities>) -> (copy: Vec<Abilities>)
    ensures
        copy@ == configuration@,
{
    let mut copy: Vec<Abilities> = Vec::new();
    let mut i: usize = 0;
    while i < configuration.len()
        invariant
            i <= configuration.len(),
            copy@ == configuration@.take(i as int),
        decreases configuration.len() - i,
    {
        copy.push(configuration[i]);
        assert(configuration@.take(i + 1) =~= configuration@.take(i as int).push(
            configuration[i as int],
        ));
        i += 1;
    }
    assert(configuration@.take(configuration.len() as int) =~= configuration@);
    copy
}

/// Returns whether costs do not fall along a hull.
fn grows(hull: &Vec<Vertex>) -> (grows: bool)
    ensures
        grows == grows_along(hull@),
{
    let mut p: usize = 1;
    while p < hull.len()
        invariant
            1 <= p,
            forall|q: int|
                #![trigger hull[q]]
                0 <= q && q + 1 < p && q + 1 < hull.len() ==> hull[q].cost <= hull[q + 1].cost,
        decreases hull.len() - p,
    {
        if hull[p - 1].cost > hull[p].cost {
            assert(hull@[p - 1].cost > hull@[p - 1 + 1].cost);
            return false;
        }
        p += 1;
    }
    true
}

/// Returns whether the hulls can be merged: costs do not fall along any of
/// them and, unless a hull is empty, the first vertices together cost no
/// more than a `u32` holds.
pub fn can_merge(hulls: &Vec<&Vec<Vertex>>) -> (fit: bool)
    ensures
        fit == mergeable(views(hulls@)),
{
    let ghost all = views(hulls@);
    let ghost picks = first_picks(hulls@.len());
    let mut i: usize = 0;
    let mut empty: bool = false;
    while i < hulls.len()
        invariant
            i <= hulls.len(),
            all == views(hulls@),
            forall|k: int| 0 <= k < i ==> grows_along(#[trigger] all[k]),
            empty == exists|k: int| 0 <= k < i && (#[trigger] all[k]).len() == 0,
        decreases hulls.len() - i,
    {
        let hull: &Vec<Vertex> = hulls[i];
        assert(all[i as int] == hull@);
        if !grows(hull) {
            return false;
        }
        if hull.len() == 0 {
            empty = true;
        }
        i += 1;
    }
    if empty {
        return true;
    }
    let mut total: u64 = 0;
    let mut i: usize = 0;
    while i < hulls.len()
        invariant
            i <= hulls.len(),
            all == views(hulls@),
            picks == first_picks(hulls@.len()),
            forall|k: int| 0 <= k < all.len() ==> (#[trigger] all[k]).len() > 0,
            total == total_cost(all, picks, i as int),
            total <= u32::MAX,
        decreases hulls.len() - i,
    {
        let hull: &Vec<Vertex> = hulls[i];
        assert(all[i as int] == hull@);
        total = total + hull[0].cost as u64;
        if total > u32::MAX as u64 {
            proof {
                lemma_total_cost_grows(all, picks, i + 1, hulls@.len() as int);
            }
            return false;
        }
        i += 1;
    }
    true
}

/// Merges the hulls of several challenges into the frontier of total cost.
///
/// Costs must not fall along a hull and, unless a hull is empty, the first
/// vertices together must not cost more than a `u32` holds.
pub fn merge_hulls(hulls: &Vec<&Vec<Vertex>>) -> (frontier: Vec<ChallengesVertex>)
    requires
        mergeable(views(hulls@)),
    ensures
        is_merge(views(hulls@), frontier@),
{
    let ghost all = views(hulls@);
    let count: usize = hulls.len();
    let mut i: usize = 0;
    while i < count
        invariant
            i <= count == hulls.len(),
            all == views(hulls@),
            forall|k: int| 0 <= k < i ==> (#[trigger] all[k]).len() > 0,
        decreases count - i,
    {
        let hull: &Vec<Vertex> = hulls[i];
        assert(all[i as int] == hull@);
        if hull.len() == 0 {
            return Vec::new();
        }
        i += 1;
    }
    assert(!some_empty(all));
    let mut cost: u32 = 0;
    let mut picks: Vec<usize> = Vec::new();
    let mut configuration: Vec<Abilities> = Vec::new();
    let mut i: usize = 0;
    while i < count
        invariant
            i <= count == hulls.len(),
            all == views(hulls@),
            picks@ == first_picks(i as nat),
            configuration.len() == i,
            forall|k: int| 0 <= k < count ==> (#[trigger] all[k]).len() > 0,
            forall|k: int| 0 <= k < i ==> (#[trigger] configuration[k]) == all[k][0].abilities,
            cost == total_cost(all, first_picks(count as nat), i as int),
            total_cost(all, first_picks(count as nat), count as int) <= u32::MAX,
        decreases count - i,
    {
        let hull: &Vec<Vertex> = hulls[i];
        assert(all[i as int] == hull@);
        proof {
            lemma_total_cost_grows(all, first_picks(count as nat), i + 1, count as int);
        }
        cost = cost + hull[0].cost;
        picks.push(0);
        configuration.push(hull[0].abilities);
        assert(picks@ =~= first_picks((i + 1) as nat));
        i += 1;
    }
    let first = ChallengesVertex {
        cost,
        advanced: None,
        picks: copy_picks(&picks),
        configuration: copy_configuration(&configuration),
    };
    proof {
        reveal(states_picks);
    }
    assert(states_picks(all, first));
    let mut frontier: Vec<ChallengesVertex> = Vec::new();
    frontier.push(first);
    loop
        invariant
            count == hulls.len(),
            all == views(hulls@),
            costs_grow(all),
            forall|k: int| 0 <= k < all.len() ==> (#[trigger] all[k]).len() > 0,
            picks_fit(all, picks@),
            cost == total_cost(all, picks@, count as int),
            configuration.len() == count,
            forall|k: int|
                0 <= k < count ==> (#[trigger] configuration[k]) == all[k][picks[k] as int].abilities,
            frontier.len() > 0,
            frontier[0].picks@ == first_picks(count as nat),
            frontier[0].advanced is None,
            forall|k: int| 0 <= k < frontier.len() ==> states_picks(all, #[trigger] frontier[k]),
            forall|k: int|
                0 < k < frontier.len() ==> follows(all, frontier[k - 1], #[trigger] frontier[k])
                    && frontier[k].cost <= MAX_TOTAL_COST,
            frontier@.last().picks@ == picks@,
        ensures
            frontier.len() > 0,
            frontier[0].picks@ == first_picks(count as nat),
            frontier[0].advanced is None,
            forall|k: int| 0 <= k < frontier.len() ==> states_picks(all, #[trigger] frontier[k]),
            forall|k: int|
                0 < k < frontier.len() ==> follows(all, frontier[k - 1], #[trigger] frontier[k])
                    && frontier[k].cost <= MAX_TOTAL_COST,
            is_last(all, frontier@.last().picks@),
        decreases vertices_left(all, picks@, count as int),
    {
        let next: usize = match next_hull(hulls, &picks) {
            Some(next) => next,
            None => {
                proof {
                    lemma_last_without_next(all, picks@);
                }
                break ;
            },
        };
        assert(can_advance(all, picks@, next as int)) by {
            reveal(is_next);
        }
        let hull: &Vec<Vertex> = hulls[next];
        assert(all[next as int] == hull@);
        let pick: usize = picks[next];
        assert(pick + 1 < hull.len());
        assert(all[next as int][pick as int].cost <= all[next as int][pick + 1].cost);
        let step: u32 = hull[pick + 1].cost - hull[pick].cost;
        if step > MAX_TOTAL_COST || cost > MAX_TOTAL_COST - step {
            proof {
                lemma_last_over_cost(all, picks@, next as int);
            }
            break ;
        }
        proof {
            lemma_advance(all, picks@, next as int, count as int);
        }
        let ghost before = picks@;
        let ghost earlier = frontier@.last();
        cost = cost + step;
        picks.set(next, pick + 1);
        configuration.set(next, hull[pick + 1].abilities);
        assert(picks@ == before.update(next as int, (before[next as int] + 1) as usize));
        let later = ChallengesVertex {
            cost,
            advanced: Some(next),
            picks: copy_picks(&picks),
            configuration: copy_configuration(&configuration),
        };
        proof {
            assert(states_picks(all, later)) by {
                reveal(states_picks);
            }
            assert(follows(all, earlier, later)) by {
                reveal(follows);
            }
        }
        frontier.push(later);
    }
    frontier
}

} // verus!
