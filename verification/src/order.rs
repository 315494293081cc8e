//! The search over the orders in which the challenges are attempted.
//!
//! A reward counts for the challenges attempted after the one that grants
//! it, so only the order among the challenges that grant a reward matters:
//! the others come last. The search tries every order of those that grant
//! one.

use itertools::structs::Permutations;
use itertools::Itertools;
use std::vec::IntoIter;
use vstd::prelude::*;
use vstd::seq_lib::lemma_no_dup_in_concat;

use crate::abilities::Abilities;
use crate::challenges::Challenge;
use crate::hull::ConvexHull;
use crate::merge::MAX_TOTAL_COST;
use crate::ord_sub::OrdSub;
use crate::rewards::{Rewards, NONE};
use crate::solver::ChallengeSolver;

verus! {

/// The permutations of a list of indices, as `itertools` walks them.
#[verifier::external_type_specification]
#[verifier::external_body]
#[verifier::reject_recursive_types(I)]
pub struct ExPermutations<I: Iterator>(Permutations<I>);

/// The orders that `Itertools::permutations` gives for a list of items and
/// their number, in the order in which it gives them.
pub uninterp spec fn orderings(items: Seq<usize>) -> Seq<Seq<usize>>;

/// The orders that a walk has yet to give.
pub uninterp spec fn orders_left(orders: Permutations<IntoIter<usize>>) -> Seq<Seq<usize>>;

/// Calls `Itertools::permutations` on the items, for orders of all of them.
/// The walk will give `orderings(items)`: all permutations of the items.
/// So each order holds every item as often as the list does, and every
/// sequence that does is among the orders.
#[verifier::external_body]
fn permutations(items: Vec<usize>) -> (orders: Permutations<IntoIter<usize>>)
    ensures
        orders_left(orders) == orderings(items@),
        forall|k: int|
            0 <= k < orders_left(orders).len() ==> (#[trigger] orders_left(orders)[k]).to_multiset()
                == items@.to_multiset(),
        forall|order: Seq<usize>|
            #[trigger] order.to_multiset() == items@.to_multiset() ==> orders_left(orders).contains(
                order,
            ),
{
    let count: usize = items.len();
    items.into_iter().permutations(count)
}

/// Calls `Iterator::next` on the walk: the first of the orders that were
/// left, which then is left no more; nothing once none is left.
#[verifier::external_body]
fn next_permutation(orders: &mut Permutations<IntoIter<usize>>) -> (order: Option<Vec<usize>>)
    ensures
        match order {
            Some(first) => orders_left(*old(orders)).len() > 0 && first@ == orders_left(
                *old(orders),
            )[0] && orders_left(*final(orders)) == orders_left(*old(orders)).drop_first(),
            None => orders_left(*old(orders)).len() == 0 && orders_left(*final(orders))
                == orders_left(*old(orders)),
        },
{
    orders.next()
}

/// The indices below `n` of the challenges that grant a reward where
/// `granting` is set, of those that grant none where it is not, in
/// increasing order.
pub open spec fn chosen(challenges: Seq<Challenge>, granting: bool, n: int) -> Seq<usize>
    decreases n,
{
    if n <= 0 {
        Seq::empty()
    } else if (challenges[n - 1].reward.mask() != NONE) == granting {
        chosen(challenges, granting, n - 1).push((n - 1) as usize)
    } else {
        chosen(challenges, granting, n - 1)
    }
}

/// Whether `order` holds every index below `count` once.
pub open spec fn is_order(order: Seq<usize>, count: nat) -> bool {
    &&& order.len() == count
    &&& order.no_duplicates()
    &&& forall|k: int| 0 <= k < order.len() ==> (#[trigger] order[k]) < count
}

/// `chosen` holds the indices below `n` of the challenges of its kind, each
/// once and no other, and the two kinds share out all indices below `n`.
pub proof fn lemma_chosen(challenges: Seq<Challenge>, granting: bool, n: int)
    requires
        0 <= n <= challenges.len(),
        n <= usize::MAX,
    ensures
        chosen(challenges, granting, n).no_duplicates(),
        forall|i: usize|
            chosen(challenges, granting, n).contains(i) <==> i < n && (challenges[i as int].reward.mask()
                != NONE) == granting,
        chosen(challenges, true, n).len() + chosen(challenges, false, n).len() == n,
    decreases n,
{
    if n > 0 {
        lemma_chosen(challenges, granting, n - 1);
        let before = chosen(challenges, granting, n - 1);
        let all = chosen(challenges, granting, n);
        let last = (n - 1) as usize;
        if (challenges[n - 1].reward.mask() != NONE) == granting {
            assert(all == before.push(last));
            assert forall|i: usize| all.contains(i) <==> i < n && (challenges[i as int].reward.mask()
                != NONE) == granting by {
                if all.contains(i) {
                    let at = choose|at: int| 0 <= at < all.len() && all[at] == i;
                    if at < before.len() {
                        assert(before[at] == i);
                        assert(before.contains(i));
                    }
                }
                if i < n && (challenges[i as int].reward.mask() != NONE) == granting {
                    if i == last {
                        assert(all[all.len() - 1] == i);
                    } else {
                        assert(before.contains(i));
                        let at = choose|at: int| 0 <= at < before.len() && before[at] == i;
                        assert(all[at] == i);
                    }
                }
            }
            assert(!before.contains(last));
            assert forall|a: int, b: int| 0 <= a < all.len() && 0 <= b < all.len() && a != b implies all[a]
                != all[b] by {
                if a < before.len() && b < before.len() {
                    assert(before[a] != before[b]);
                } else if a < before.len() {
                    assert(before.contains(before[a]));
                } else {
                    assert(before.contains(before[b]));
                }
            }
        }
    } else {
        assert forall|i: usize| !chosen(challenges, granting, n).contains(i) by {}
    }
}

/// An order of the challenges that grant a reward, followed by the
/// challenges that grant none, is an order of all challenges.
pub proof fn lemma_whole_order(challenges: Seq<Challenge>, head: Seq<usize>)
    requires
        challenges.len() <= usize::MAX,
        head.to_multiset() == chosen(challenges, true, challenges.len() as int).to_multiset(),
    ensures
        is_order(head + chosen(challenges, false, challenges.len() as int), challenges.len()),
{
    let n = challenges.len() as int;
    let granting = chosen(challenges, true, n);
    let rest = chosen(challenges, false, n);
    head.to_multiset_ensures();
    granting.to_multiset_ensures();
    lemma_chosen(challenges, true, n);
    lemma_chosen(challenges, false, n);
    granting.lemma_multiset_has_no_duplicates();
    head.lemma_multiset_has_no_duplicates_conv();
    assert(head.len() == granting.len());
    assert forall|i: int, j: int| 0 <= i < head.len() && 0 <= j < rest.len() implies head[i]
        != rest[j] by {
        assert(head.contains(head[i]));
        assert(head.to_multiset().count(head[i]) > 0);
        assert(granting.contains(head[i]));
        assert(rest.contains(rest[j]));
    }
    lemma_no_dup_in_concat(head, rest);
    let order = head + rest;
    assert forall|k: int| 0 <= k < order.len() implies (#[trigger] order[k]) < n by {
        if k < head.len() {
            assert(head.contains(head[k]));
            assert(head.to_multiset().count(head[k]) > 0);
            assert(granting.contains(head[k]));
        } else {
            assert(rest.contains(rest[k - head.len()]));
        }
    }
}

/// Returns the indices of the challenges that grant a reward and of those
/// that grant none, each in increasing order.
pub fn split_by_reward(challenges: &Vec<Challenge>) -> (split: (Vec<usize>, Vec<usize>))
    ensures
        split.0@ == chosen(challenges@, true, challenges.len() as int),
        split.1@ == chosen(challenges@, false, challenges.len() as int),
{
    let mut granting: Vec<usize> = Vec::new();
    let mut rest: Vec<usize> = Vec::new();
    let mut index: usize = 0;
    while index < challenges.len()
        invariant
            index <= challenges.len(),
            granting@ == chosen(challenges@, true, index as int),
            rest@ == chosen(challenges@, false, index as int),
        decreases challenges.len() - index,
    {
        if challenges[index].reward.is_empty() {
            rest.push(index);
        } else {
            granting.push(index);
        }
        index += 1;
    }
    (granting, rest)
}

/// The orders of a list of challenges that are still to be tried.
pub struct Orders {
    count: usize,
    walk: Permutations<IntoIter<usize>>,
    rest: Vec<usize>,
}

/// Every order of the challenges that the search tries, in the order in
/// which it tries them: each order of those that grant a reward, followed
/// by those that grant none.
pub open spec fn all_orders(challenges: Seq<Challenge>) -> Seq<Seq<usize>> {
    let heads = orderings(chosen(challenges, true, challenges.len() as int));
    Seq::new(heads.len(), |k: int| heads[k] + chosen(challenges, false, challenges.len() as int))
}

impl Orders {
    /// The number of challenges.
    pub closed spec fn count(self) -> nat {
        self.count as nat
    }

    /// The orders that are still to be tried.
    pub closed spec fn left(self) -> Seq<Seq<usize>> {
        Seq::new(orders_left(self.walk).len(), |k: int| orders_left(self.walk)[k] + self.rest@)
    }

    /// Whether each order that is left is an order of all challenges.
    pub open spec fn well_formed(self) -> bool {
        forall|k: int| 0 <= k < self.left().len() ==> is_order(#[trigger] self.left()[k], self.count())
    }

    /// Starts the walk over the orders of a list of challenges. Every order
    /// of the challenges that grant a reward, followed by the challenges
    /// that grant none, is among the orders to try.
    pub fn new(challenges: &Vec<Challenge>) -> (orders: Orders)
        ensures
            orders.count() == challenges.len(),
            orders.left() == all_orders(challenges@),
            orders.well_formed(),
            forall|head: Seq<usize>|
                #[trigger] head.to_multiset() == chosen(
                    challenges@,
                    true,
                    challenges.len() as int,
                ).to_multiset() ==> orders.left().contains(
                    head + chosen(challenges@, false, challenges.len() as int),
                ),
    {
        let (granting, rest) = split_by_reward(challenges);
        let ghost heads = orderings(granting@);
        let walk = permutations(granting);
        let orders = Orders { count: challenges.len(), walk, rest };
        proof {
            assert(orders.left() =~= all_orders(challenges@));
            assert forall|k: int| 0 <= k < orders.left().len() implies is_order(
                #[trigger] orders.left()[k],
                orders.count(),
            ) by {
                lemma_whole_order(challenges@, heads[k]);
            }
            assert forall|head: Seq<usize>|
                #[trigger] head.to_multiset() == chosen(
                    challenges@,
                    true,
                    challenges.len() as int,
                ).to_multiset() implies orders.left().contains(
                head + chosen(challenges@, false, challenges.len() as int),
            ) by {
                assert(heads.contains(head));
                let k = choose|k: int| 0 <= k < heads.len() && heads[k] == head;
                assert(orders.left()[k] == head + chosen(
                    challenges@,
                    false,
                    challenges.len() as int,
                ));
            }
        }
        orders
    }

    /// Returns the next order to try, or nothing once every order was
    /// tried.
    pub fn next_order(&mut self) -> (order: Option<Vec<usize>>)
        requires
            old(self).well_formed(),
        ensures
            final(self).well_formed(),
            final(self).count() == old(self).count(),
            match order {
                Some(first) => {
                    &&& old(self).left().len() > 0
                    &&& first@ == old(self).left()[0]
                    &&& final(self).left() == old(self).left().drop_first()
                    &&& is_order(first@, old(self).count())
                },
                None => old(self).left().len() == 0 && final(self).left() == old(self).left(),
            },
    {
        let ghost before = self.left();
        match next_permutation(&mut self.walk) {
            Some(head) => {
                let mut order: Vec<usize> = head;
                let mut k: usize = 0;
                while k < self.rest.len()
                    invariant
                        k <= self.rest.len(),
                        order@ == before[0].subrange(0, before[0].len() - self.rest.len() + k),
                        before.len() > 0,
                        before[0].len() >= self.rest.len(),
                        before[0].subrange(
                            before[0].len() - self.rest.len(),
                            before[0].len() as int,
                        ) == self.rest@,
                    decreases self.rest.len() - k,
                {
                    order.push(self.rest[k]);
                    assert(order@ =~= before[0].subrange(0, before[0].len() - self.rest.len() + k + 1));
                    k += 1;
                }
                assert(order@ =~= before[0]);
                assert(self.left() =~= before.drop_first());
                assert forall|k: int| 0 <= k < self.left().len() implies is_order(
                    #[trigger] self.left()[k],
                    self.count(),
                ) by {
                    assert(self.left()[k] == before[k + 1]);
                }
                Some(order)
            },
            None => {
                assert(self.left() =~= before);
                None
            },
        }
    }
}

/// The mask of the rewards in force at step `k` of an order: those of the
/// challenges attempted before.
pub open spec fn gathered(challenges: Seq<Challenge>, order: Seq<usize>, k: int) -> u32
    decreases k,
{
    if k <= 0 {
        NONE
    } else {
        gathered(challenges, order, k - 1) | challenges[order[k - 1] as int].reward.mask()
    }
}

/// Returns, for each step of an order, the hull of the challenge attempted
/// at that step under the rewards of the challenges attempted before.
pub fn hulls_in_order<'a>(
    solver: &'a ChallengeSolver,
    challenges: &Vec<Challenge>,
    order: &Vec<usize>,
) -> (hulls: Vec<&'a ConvexHull>)
    requires
        solver.challenges() == challenges.len(),
        forall|k: int| 0 <= k < order.len() ==> (#[trigger] order[k]) < challenges.len(),
        forall|k: int|
            0 <= k < order.len() ==> solver.solved(#[trigger] gathered(challenges@, order@, k)),
    ensures
        hulls.len() == order.len(),
        forall|k: int|
            0 <= k < order.len() ==> (#[trigger] hulls[k])@ == solver.hulls(
                gathered(challenges@, order@, k),
            )[order[k] as int],
{
    let mut hulls: Vec<&'a ConvexHull> = Vec::new();
    let mut rewards = Rewards::none();
    let mut k: usize = 0;
    while k < order.len()
        invariant
            k <= order.len(),
            forall|j: int|
                0 <= j < order.len() ==> solver.solved(#[trigger] gathered(challenges@, order@, j)),
            solver.challenges() == challenges.len(),
            forall|j: int| 0 <= j < order.len() ==> (#[trigger] order[j]) < challenges.len(),
            rewards.mask() == gathered(challenges@, order@, k as int),
            hulls.len() == k,
            forall|j: int|
                0 <= j < k ==> (#[trigger] hulls[j])@ == solver.hulls(
                    gathered(challenges@, order@, j),
                )[order[j] as int],
        decreases order.len() - k,
    {
        let index: usize = order[k];
        hulls.push(solver.solution_to(rewards, index));
        rewards = rewards.union(challenges[index].reward);
        k += 1;
    }
    hulls
}

/// The number of cost values of a solution: every total cost is even.
pub const TOTAL_COSTS: usize = 501;

/// A vertex of the frontier over all orders.
#[derive(Debug)]
pub struct SolutionVertex {
    /// The total cost.
    pub cost: u32,
    /// The logarithm of the chance to pass every challenge.
    pub log_proba: OrdSub,
    /// The order in which the challenges are attempted.
    pub order: Vec<usize>,
    /// The configuration of abilities for each step of the order.
    pub abilities: Vec<Abilities>,
}

/// For each half of a total cost, the best vertex offered so far.
pub struct SolutionTable {
    entries: Vec<Option<SolutionVertex>>,
}

/// Whether the entry at `bucket` is part of the frontier: it holds a vertex
/// whose chance is above that of every vertex of lower cost.
pub open spec fn improves(entries: Seq<Option<SolutionVertex>>, bucket: int) -> bool {
    &&& entries[bucket] is Some
    &&& forall|lower: int|
        0 <= lower < bucket && (#[trigger] entries[lower]) is Some
            ==> entries[lower]->0.log_proba.rank() < entries[bucket]->0.log_proba.rank()
}

/// The vertices among the first `n` entries that are part of the frontier,
/// in increasing order of cost.
pub open spec fn improving(entries: Seq<Option<SolutionVertex>>, n: int) -> Seq<SolutionVertex>
    decreases n,
{
    if n <= 0 {
        Seq::empty()
    } else if improves(entries, n - 1) {
        improving(entries, n - 1).push(entries[n - 1]->0)
    } else {
        improving(entries, n - 1)
    }
}

/// The greatest chance among the first `n` entries is that of the last
/// vertex of `improving`, and chances grow strictly along it.
pub proof fn lemma_improving(entries: Seq<Option<SolutionVertex>>, n: int)
    requires
        0 <= n <= entries.len(),
    ensures
        improving(entries, n).len() == 0 ==> forall|b: int|
            0 <= b < n ==> (#[trigger] entries[b]) is None,
        improving(entries, n).len() > 0 ==> forall|b: int|
            0 <= b < n && (#[trigger] entries[b]) is Some ==> entries[b]->0.log_proba.rank()
                <= improving(entries, n).last().log_proba.rank(),
        forall|i: int, j: int|
            0 <= i < j < improving(entries, n).len() ==> (#[trigger] improving(
                entries,
                n,
            )[i]).log_proba.rank() < (#[trigger] improving(entries, n)[j]).log_proba.rank(),
    decreases n,
{
    if n > 0 {
        lemma_improving(entries, n - 1);
        let before = improving(entries, n - 1);
        if improves(entries, n - 1) {
            if before.len() > 0 {
                let held = lemma_improving_member(entries, n - 1, before.len() - 1);
                assert(entries[held] is Some);
            }
        } else if entries[n - 1] is Some {
            if before.len() == 0 {
                assert(improves(entries, n - 1));
            } else {
                let lower = choose|lower: int|
                    0 <= lower < n - 1 && (#[trigger] entries[lower]) is Some
                        && !(entries[lower]->0.log_proba.rank() < entries[n
                        - 1]->0.log_proba.rank());
                assert(entries[lower]->0.log_proba.rank() <= before.last().log_proba.rank());
            }
        }
    }
}

/// Every vertex of `improving` is one of the first `n` entries: the lemma
/// returns the place of the vertex numbered `i`.
pub proof fn lemma_improving_member(entries: Seq<Option<SolutionVertex>>, n: int, i: int) -> (b:
    int)
    requires
        0 <= n <= entries.len(),
        0 <= i < improving(entries, n).len(),
    ensures
        0 <= b < n,
        entries[b] == Some(improving(entries, n)[i]),
    decreases n,
{
    let before = improving(entries, n - 1);
    if i < before.len() {
        lemma_improving_member(entries, n - 1, i)
    } else {
        n - 1
    }
}

/// Whether every vertex stands at the place of its cost.
pub open spec fn in_place(entries: Seq<Option<SolutionVertex>>) -> bool {
    forall|bucket: int|
        0 <= bucket < entries.len() && (#[trigger] entries[bucket]) is Some
            ==> entries[bucket]->0.cost / 2 == bucket
}

/// Where every vertex stands at the place of its cost, costs grow strictly
/// along `improving`.
pub proof fn lemma_improving_costs(entries: Seq<Option<SolutionVertex>>, n: int)
    requires
        0 <= n <= entries.len(),
        in_place(entries),
    ensures
        forall|i: int|
            0 <= i < improving(entries, n).len() ==> (#[trigger] improving(entries, n)[i]).cost / 2
                < n,
        forall|i: int, j: int|
            0 <= i < j < improving(entries, n).len() ==> (#[trigger] improving(entries, n)[i]).cost
                < (#[trigger] improving(entries, n)[j]).cost,
    decreases n,
{
    if n > 0 {
        lemma_improving_costs(entries, n - 1);
        let before = improving(entries, n - 1);
        let all = improving(entries, n);
        if improves(entries, n - 1) {
            assert(entries[n - 1] is Some);
            assert(all.last().cost / 2 == n - 1);
            assert forall|i: int, j: int| 0 <= i < j < all.len() implies (#[trigger] all[i]).cost
                < (#[trigger] all[j]).cost by {
                assert(all[i] == before[i]);
                if j < before.len() {
                    assert(all[j] == before[j]);
                } else {
                    assert(before[i].cost / 2 < n - 1);
                }
            }
        }
    }
}

impl SolutionTable {
    /// What holds of every table: it has a place for each cost, and every
    /// vertex stands at the place of its cost.
    pub open spec fn well_formed(self) -> bool {
        self.entries().len() == TOTAL_COSTS && in_place(self.entries())
    }

    /// The entries, by half the total cost.
    pub closed spec fn entries(self) -> Seq<Option<SolutionVertex>> {
        self.entries@
    }

    /// Returns the table with no vertex.
    pub fn new() -> (table: SolutionTable)
        ensures
            table.well_formed(),
            forall|bucket: int| 0 <= bucket < TOTAL_COSTS ==> table.entries()[bucket] is None,
    {
        let mut entries: Vec<Option<SolutionVertex>> = Vec::new();
        while entries.len() < TOTAL_COSTS
            invariant
                entries.len() <= TOTAL_COSTS,
                forall|bucket: int| 0 <= bucket < entries.len() ==> entries[bucket] is None,
            decreases TOTAL_COSTS - entries.len(),
        {
            entries.push(None);
        }
        SolutionTable { entries }
    }

    /// Offers a vertex to the table. It takes the place of its cost unless
    /// the vertex that holds the place has a greater chance.
    pub fn offer(&mut self, candidate: SolutionVertex)
        requires
            old(self).well_formed(),
            candidate.cost <= MAX_TOTAL_COST,
        ensures
            final(self).entries() == (if old(self).entries()[candidate.cost as int / 2] matches Some(
                held,
            ) && held.log_proba.rank() > candidate.log_proba.rank() {
                old(self).entries()
            } else {
                old(self).entries().update(candidate.cost as int / 2, Some(candidate))
            }),
            final(self).well_formed(),
    {
        let bucket: usize = (candidate.cost / 2) as usize;
        let keep: bool = match &self.entries[bucket] {
            Some(held) => held.log_proba > candidate.log_proba,
            None => false,
        };
        if !keep {
            self.entries[bucket] = Some(candidate);
        }
    }

    /// Returns the frontier: the vertices whose chance is above that of
    /// every vertex of lower cost, in increasing order of cost.
    pub fn frontier(self) -> (frontier: Vec<SolutionVertex>)
        requires
            self.well_formed(),
        ensures
            frontier@ == improving(self.entries(), TOTAL_COSTS as int),
            forall|i: int, j: int|
                0 <= i < j < frontier.len() ==> (#[trigger] frontier[i]).log_proba.rank()
                    < (#[trigger] frontier[j]).log_proba.rank() && frontier[i].cost
                    < frontier[j].cost,
    {
        proof {
            lemma_improving(self.entries(), TOTAL_COSTS as int);
            lemma_improving_costs(self.entries(), TOTAL_COSTS as int);
        }
        let ghost entries = self.entries();
        let mut frontier: Vec<SolutionVertex> = Vec::new();
        for entry in all: self.entries
            invariant
                all.seq() == entries,
                entries.len() == TOTAL_COSTS,
                frontier@ == improving(entries, all.index() as int),
        {
            proof {
                lemma_improving(entries, all.index() as int);
            }
            match entry {
                Some(vertex) => {
                    let better: bool = if frontier.len() == 0 {
                        true
                    } else {
                        vertex.log_proba > frontier[frontier.len() - 1].log_proba
                    };
                    proof {
                        let at = all.index() as int;
                        if frontier.len() > 0 {
                            let held = lemma_improving_member(entries, at, frontier.len() - 1);
                            assert(entries[held] is Some);
                        }
                        assert(better == improves(entries, at));
                    }
                    if better {
                        frontier.push(vertex);
                    }
                },
                None => {},
            }
        }
        frontier
    }
}

} // verus!
