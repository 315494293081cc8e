//! The table of the best configuration for each cost, number of levels and
//! target, and the order in which the configurations are visited.
//!
//! The search visits every configuration that is within the limits, asks
//! whoever drives it for the chances of that configuration to reach each of
//! the targets, and records them. The driver's loop is short: start from
//! the empty configuration, `record` the chances of the current one, and go
//! on to its `successor` until there is none.

use vstd::prelude::*;

use crate::abilities::Abilities;
use crate::challenges::{MAX_ABILITIES, TARGETS};
use crate::ord_sub::OrdSub;

verus! {

/// The maximum cost to consider for a single challenge.
pub const MAX_COST: usize = 300;

/// The number of different costs to consider: every cost is even.
pub const COSTS: usize = 151;

/// The number of different counts of levels: none up to `MAX_ABILITIES`.
pub const COUNTS: usize = 17;

/// The number of entries of a table.
pub const CELLS: usize = 23103;

/// An entry of the table: a chance and a configuration that has it.
#[derive(Debug, Copy, Clone)]
pub struct SearchEntry {
    /// The chance that the configuration reaches the target.
    pub proba: OrdSub,
    /// The configuration.
    pub abilities: Abilities,
}

/// A table from half the cost, the number of levels and the index of the
/// target to the best entry found.
pub struct SearchTable {
    entries: Vec<SearchEntry>,
}

/// The place of an entry among all entries of a table.
pub open spec fn cell(bucket: int, count: int, target: int) -> int {
    (bucket * COUNTS + count) * TARGETS + target
}

/// Whether the three numbers name an entry of a table.
pub open spec fn in_table(bucket: int, count: int, target: int) -> bool {
    0 <= bucket < COSTS && 0 <= count < COUNTS && 0 <= target < TARGETS
}

/// Whether a configuration is within the limits on levels and on cost.
pub open spec fn feasible(configuration: Abilities) -> bool {
    configuration.total() <= MAX_ABILITIES && configuration.spent() <= MAX_COST
}

/// The number that the levels of the first `k` abilities write in base 256,
/// the first ability first.
pub open spec fn prefix_value(configuration: Abilities, k: int) -> int
    decreases k,
{
    if k <= 0 {
        0
    } else {
        prefix_value(configuration, k - 1) * 256 + configuration.level(k - 1)
    }
}

/// The place of a configuration in the order of the search: the number that
/// its levels write in base 256. The search visits configurations as a
/// dictionary orders words, the first ability deciding first.
pub open spec fn rank(configuration: Abilities) -> int {
    prefix_value(configuration, 8)
}

/// A configuration that is ahead on the first `k` abilities is ahead.
pub proof fn lemma_prefix_decides(a: Abilities, b: Abilities, k: int)
    requires
        0 <= k <= 8,
        prefix_value(a, k) < prefix_value(b, k),
    ensures
        rank(a) < rank(b),
    decreases 8 - k,
{
    if k < 8 {
        lemma_prefix_decides(a, b, k + 1);
    }
}

/// Configurations with the same levels in the first `k` abilities write the
/// same number with them, and the other way round.
pub proof fn lemma_prefix_same(a: Abilities, b: Abilities, k: int)
    requires
        0 <= k <= 8,
    ensures
        (forall|i: int| 0 <= i < k ==> a.level(i) == b.level(i)) <==> prefix_value(a, k)
            == prefix_value(b, k),
    decreases k,
{
    if k > 0 {
        lemma_prefix_same(a, b, k - 1);
        if prefix_value(a, k) == prefix_value(b, k) {
            assert(prefix_value(a, k - 1) == prefix_value(b, k - 1));
            assert(a.level(k - 1) == b.level(k - 1));
        }
    }
}

/// The order of the search is that of a dictionary: of two configurations,
/// the one with fewer levels in the first ability in which they differ comes
/// first.
pub proof fn lemma_first_difference_decides(a: Abilities, b: Abilities, at: int)
    requires
        0 <= at < 8,
        forall|i: int| 0 <= i < at ==> a.level(i) == b.level(i),
        a.level(at) < b.level(at),
    ensures
        rank(a) < rank(b),
{
    lemma_prefix_same(a, b, at);
    lemma_prefix_decides(a, b, at + 1);
}

/// A configuration with no level after the first `k` abilities comes no
/// later than one that is not behind on those.
pub proof fn lemma_empty_tail(a: Abilities, b: Abilities, k: int)
    requires
        0 <= k <= 8,
        forall|i: int| k <= i < 8 ==> a.level(i) == 0,
        prefix_value(a, k) <= prefix_value(b, k),
    ensures
        rank(a) <= rank(b),
    decreases 8 - k,
{
    if k < 8 {
        lemma_empty_tail(a, b, k + 1);
    }
}

/// Whether `later` is the configuration that the search visits after
/// `earlier`: the first one within the limits that comes later.
pub open spec fn is_successor(earlier: Abilities, later: Abilities) -> bool {
    &&& feasible(later)
    &&& rank(earlier) < rank(later)
    &&& forall|other: Abilities|
        feasible(other) && rank(earlier) < rank(other) ==> rank(later) <= #[trigger] rank(other)
}

/// Whether no configuration within the limits comes after `last`.
pub open spec fn is_last(last: Abilities) -> bool {
    forall|other: Abilities| feasible(other) ==> #[trigger] rank(other) <= rank(last)
}

/// Whether `walk` is the walk of the search: from the empty configuration
/// by successors to the last one.
pub open spec fn is_walk(walk: Seq<Abilities>) -> bool {
    &&& walk.len() > 0
    &&& walk[0] == Abilities::new()
    &&& forall|k: int| 0 < k < walk.len() ==> is_successor(walk[k - 1], #[trigger] walk[k])
    &&& is_last(walk.last())
}

/// Configurations with the same place in the order of the search are the
/// same.
pub proof fn lemma_rank_decides(a: Abilities, b: Abilities)
    requires
        rank(a) == rank(b),
    ensures
        a == b,
{
    lemma_prefix_same(a, b, 8);
    a.lemma_same_levels(b);
}

/// The search is exhaustive: its walk visits every configuration that is
/// within the limits. The lemma returns the step at which it visits
/// `configuration`.
pub proof fn lemma_walk_visits(walk: Seq<Abilities>, configuration: Abilities) -> (step: int)
    requires
        is_walk(walk),
        feasible(configuration),
    ensures
        0 <= step < walk.len(),
        walk[step] == configuration,
{
    Abilities::lemma_new();
    assert(rank(walk[0]) == 0) by {
        reveal_with_fuel(prefix_value, 9);
    }
    assert(rank(configuration) >= 0) by {
        reveal_with_fuel(prefix_value, 9);
    }
    lemma_walk_visits_from(walk, configuration, 0)
}

/// A walk that has not passed a configuration within the limits visits it
/// later.
proof fn lemma_walk_visits_from(walk: Seq<Abilities>, configuration: Abilities, from: int) -> (step:
    int)
    requires
        is_walk(walk),
        feasible(configuration),
        0 <= from < walk.len(),
        rank(walk[from]) <= rank(configuration),
    ensures
        from <= step < walk.len(),
        walk[step] == configuration,
    decreases walk.len() - from,
{
    if rank(walk[from]) == rank(configuration) {
        lemma_rank_decides(walk[from], configuration);
        from
    } else if from + 1 < walk.len() {
        assert(is_successor(walk[from], walk[from + 1]));
        lemma_walk_visits_from(walk, configuration, from + 1)
    } else {
        assert(walk[from] == walk.last());
        assert(rank(configuration) <= rank(walk.last()));
        from
    }
}

/// Returns the configuration that the search visits after `configuration`:
/// the first one in the order of the search that is within the limits and
/// comes later. There is none after the last.
pub fn successor(configuration: &Abilities) -> (next: Option<Abilities>)
    ensures
        match next {
            Some(later) => is_successor(*configuration, later),
            None => is_last(*configuration),
        },
{
    let mut next: Abilities = *configuration;
    let mut position: usize = 8;
    while position > 0
        invariant
            position <= 8,
            forall|i: int| 0 <= i < position ==> next.level(i) == configuration.level(i),
            forall|i: int| position <= i < 8 ==> next.level(i) == 0,
            forall|other: Abilities|
                feasible(other) && rank(*configuration) < rank(other) ==> prefix_value(
                    *configuration,
                    position as int,
                ) < #[trigger] prefix_value(other, position as int),
        decreases position,
    {
        position -= 1;
        let ghost k = position as int;
        let level: u8 = next.peek(position);
        let mut within: bool = false;
        if level < u8::MAX {
            next.put(position, level + 1);
            within = next.levels() <= MAX_ABILITIES as u32 && next.cost() <= MAX_COST as u32;
        }
        proof {
            lemma_prefix_same(*configuration, next, k);
        }
        if within {
            proof {
                lemma_prefix_decides(*configuration, next, k + 1);
                assert forall|other: Abilities|
                    feasible(other) && rank(*configuration) < rank(other) implies rank(next)
                    <= #[trigger] rank(other) by {
                    assert(prefix_value(*configuration, k + 1) < prefix_value(other, k + 1));
                    lemma_empty_tail(next, other, k + 1);
                }
            }
            return Some(next);
        }
        proof {
            assert forall|other: Abilities|
                feasible(other) && rank(*configuration) < rank(other) implies prefix_value(
                *configuration,
                k,
            ) < #[trigger] prefix_value(other, k) by {
                assert(prefix_value(*configuration, k + 1) < prefix_value(other, k + 1));
                if prefix_value(*configuration, k) == prefix_value(other, k) {
                    lemma_prefix_same(*configuration, other, k);
                    assert(configuration.level(k) < other.level(k));
                    assert(forall|i: int| 0 <= i < 8 ==> next.level(i) <= other.level(i));
                    assert(next.total() <= other.total());
                    assert(next.spent() <= other.spent());
                }
            }
        }
        next.put(position, 0);
    }
    assert forall|other: Abilities| feasible(other) implies #[trigger] rank(other) <= rank(
        *configuration,
    ) by {
        if rank(*configuration) < rank(other) {
            assert(prefix_value(*configuration, 0) < prefix_value(other, 0));
        }
    }
    None
}

impl SearchTable {
    #[verifier::type_invariant]
    spec fn well_formed(self) -> bool {
        self.entries.len() == CELLS
    }

    /// The entry for half a cost, a number of levels and a target index.
    pub closed spec fn entry(self, bucket: int, count: int, target: int) -> SearchEntry {
        self.entries[cell(bucket, count, target)]
    }

    /// The entry that stands at `(bucket, count, target)` once the chances
    /// of a configuration are recorded in `self`: the configuration with its
    /// chance, where the place is its own and its chance is not below the
    /// one that stood there; else what stood there.
    pub open spec fn recorded(
        self,
        configuration: Abilities,
        chances: Seq<OrdSub>,
        bucket: int,
        count: int,
        target: int,
    ) -> SearchEntry {
        if configuration.spent() <= MAX_COST && bucket == configuration.spent() / 2 && count
            == configuration.total() && chances[target].rank() >= self.entry(
            bucket,
            count,
            target,
        ).proba.rank() {
            SearchEntry { proba: chances[target], abilities: configuration }
        } else {
            self.entry(bucket, count, target)
        }
    }

    /// Among the entries with at most `count` levels for a cost and a target,
    /// the number of levels of the best one: the one with the greatest
    /// chance and, among equals, with the most levels.
    pub open spec fn last_best(self, bucket: int, count: int, target: int) -> int
        decreases count,
    {
        if count <= 0 {
            0
        } else {
            let before = self.last_best(bucket, count - 1, target);
            if self.entry(bucket, before, target).proba.rank() > self.entry(
                bucket,
                count,
                target,
            ).proba.rank() {
                before
            } else {
                count
            }
        }
    }

    /// `last_best` names an entry with at most `count` levels whose chance
    /// none of them exceeds and none after it equals.
    pub proof fn lemma_last_best(self, bucket: int, count: int, target: int)
        requires
            0 <= count,
        ensures
            0 <= self.last_best(bucket, count, target) <= count,
            forall|c: int|
                0 <= c <= count ==> (#[trigger] self.entry(bucket, c, target)).proba.rank()
                    <= self.entry(
                    bucket,
                    self.last_best(bucket, count, target),
                    target,
                ).proba.rank(),
            forall|c: int|
                self.last_best(bucket, count, target) < c <= count ==> (#[trigger] self.entry(
                    bucket,
                    c,
                    target,
                )).proba.rank() < self.entry(
                    bucket,
                    self.last_best(bucket, count, target),
                    target,
                ).proba.rank(),
        decreases count,
    {
        if count > 0 {
            self.lemma_last_best(bucket, count - 1, target);
        }
    }

    /// Once each entry is replaced by the best one with at most as many
    /// levels, a greater cap never gives a smaller chance.
    pub proof fn lemma_best_grows(self, bucket: int, fewer: int, more: int, target: int)
        requires
            0 <= fewer <= more,
        ensures
            self.entry(bucket, self.last_best(bucket, fewer, target), target).proba.rank()
                <= self.entry(bucket, self.last_best(bucket, more, target), target).proba.rank(),
    {
        self.lemma_last_best(bucket, fewer, target);
        self.lemma_last_best(bucket, more, target);
    }

    /// `last_best` looks at the entries for its cost and target only.
    pub proof fn lemma_last_best_local(
        self,
        other: SearchTable,
        bucket: int,
        count: int,
        target: int,
    )
        requires
            forall|c: int|
                0 <= c <= count ==> self.entry(bucket, c, target) == other.entry(bucket, c, target),
        ensures
            self.last_best(bucket, count, target) == other.last_best(bucket, count, target),
        decreases count,
    {
        if count > 0 {
            self.lemma_last_best_local(other, bucket, count - 1, target);
            self.lemma_last_best(bucket, count - 1, target);
        }
    }

    /// Returns the entry for half a cost, a number of levels and a target
    /// index.
    pub fn get(&self, bucket: usize, count: usize, target: usize) -> (entry: SearchEntry)
        requires
            in_table(bucket as int, count as int, target as int),
        ensures
            entry == self.entry(bucket as int, count as int, target as int),
    {
        proof {
            use_type_invariant(self);
        }
        self.entries[(bucket * COUNTS + count) * TARGETS + target]
    }

    /// Records the chances of a configuration to reach each target, in the
    /// place of its cost and number of levels. A chance replaces the one
    /// recorded there unless that one is greater. A configuration that costs
    /// more than `MAX_COST` is not recorded.
    pub fn record(&mut self, configuration: &Abilities, chances: &[OrdSub; 9])
        requires
            configuration.total() <= MAX_ABILITIES,
        ensures
            forall|bucket: int, count: int, target: int|
                in_table(bucket, count, target) ==> #[trigger] final(self).entry(
                    bucket,
                    count,
                    target,
                ) == old(self).recorded(*configuration, chances@, bucket, count, target),
    {
        proof {
            use_type_invariant(&*self);
        }
        let cost: u32 = configuration.cost();
        if cost > MAX_COST as u32 {
            return ;
        }
        let bucket: usize = (cost / 2) as usize;
        let count: usize = configuration.levels() as usize;
        let base: usize = (bucket * COUNTS + count) * TARGETS;
        let mut target: usize = 0;
        while target < TARGETS
            invariant
                target <= TARGETS,
                self.entries.len() == CELLS,
                base == cell(bucket as int, count as int, 0),
                bucket == configuration.spent() / 2,
                count == configuration.total(),
                in_table(bucket as int, count as int, 0),
                configuration.spent() <= MAX_COST,
                forall|i: int|
                    0 <= i < CELLS && !(base <= i < base + TARGETS) ==> self.entries[i] == old(
                        self,
                    ).entries[i],
                forall|i: int|
                    base + target <= i < base + TARGETS ==> self.entries[i] == old(
                        self,
                    ).entries[i],
                forall|i: int|
                    base <= i < base + target ==> self.entries[i] == old(self).recorded(
                        *configuration,
                        chances@,
                        bucket as int,
                        count as int,
                        i - base,
                    ),
            decreases TARGETS - target,
        {
            let chance = chances[target];
            if chance >= self.entries[base + target].proba {
                self.entries[base + target] = SearchEntry {
                    proba: chance,
                    abilities: *configuration,
                };
            }
            target += 1;
        }
        assert forall|b: int, c: int, t: int| in_table(b, c, t) implies #[trigger] self.entry(
            b,
            c,
            t,
        ) == old(self).recorded(*configuration, chances@, b, c, t) by {
            if b == bucket && c == count {
                assert(cell(b, c, t) == base + t);
            } else {
                assert(!(base <= cell(b, c, t) < base + TARGETS));
            }
        }
    }
}

impl SearchTable {
    /// Replaces, for one cost and one target, each entry by the best entry
    /// with at most as many levels.
    fn cummax_column(&mut self, bucket: usize, target: usize)
        requires
            bucket < COSTS,
            target < TARGETS,
        ensures
            forall|b: int, c: int, t: int|
                in_table(b, c, t) ==> #[trigger] final(self).entry(b, c, t) == (if b == bucket && t
                    == target {
                    old(self).entry(b, old(self).last_best(b, c, t), t)
                } else {
                    old(self).entry(b, c, t)
                }),
    {
        proof {
            use_type_invariant(&*self);
        }
        let ghost before = *self;
        let mut best: SearchEntry = self.entries[(bucket * COUNTS) * TARGETS + target];
        let mut count: usize = 1;
        while count < COUNTS
            invariant
                1 <= count <= COUNTS,
                bucket < COSTS,
                target < TARGETS,
                self.entries.len() == CELLS,
                before.entries.len() == CELLS,
                best == before.entry(
                    bucket as int,
                    before.last_best(bucket as int, count - 1, target as int),
                    target as int,
                ),
                forall|b: int, c: int, t: int|
                    in_table(b, c, t) ==> #[trigger] self.entry(b, c, t) == (if b == bucket && t
                        == target && c < count {
                        before.entry(b, before.last_best(b, c, t), t)
                    } else {
                        before.entry(b, c, t)
                    }),
            decreases COUNTS - count,
        {
            let at: usize = (bucket * COUNTS + count) * TARGETS + target;
            let ghost previous = *self;
            assert(self.entries[at as int] == self.entry(bucket as int, count as int, target as int));
            let value: SearchEntry = self.entries[at];
            if best.proba > value.proba {
                self.entries[at] = best;
            } else {
                best = value;
            }
            assert forall|b: int, c: int, t: int| in_table(b, c, t) implies #[trigger] self.entry(
                b,
                c,
                t,
            ) == (if b == bucket && t == target && c < count + 1 {
                before.entry(b, before.last_best(b, c, t), t)
            } else {
                before.entry(b, c, t)
            }) by {
                if cell(b, c, t) != at {
                    assert(self.entry(b, c, t) == previous.entry(b, c, t));
                }
            }
            count += 1;
        }
    }

    /// Replaces each entry by the best entry for the same cost and target
    /// with at most as many levels: a cap on the levels is a ceiling, and
    /// fewer may be used.
    pub fn ability_cummax(&mut self)
        ensures
            forall|b: int, c: int, t: int|
                in_table(b, c, t) ==> #[trigger] final(self).entry(b, c, t) == old(self).entry(
                    b,
                    old(self).last_best(b, c, t),
                    t,
                ),
    {
        let ghost before = *self;
        let mut bucket: usize = 0;
        while bucket < COSTS
            invariant
                bucket <= COSTS,
                forall|b: int, c: int, t: int|
                    in_table(b, c, t) ==> #[trigger] self.entry(b, c, t) == (if b < bucket {
                        before.entry(b, before.last_best(b, c, t), t)
                    } else {
                        before.entry(b, c, t)
                    }),
            decreases COSTS - bucket,
        {
            let mut target: usize = 0;
            while target < TARGETS
                invariant
                    bucket < COSTS,
                    target <= TARGETS,
                    forall|b: int, c: int, t: int|
                        in_table(b, c, t) ==> #[trigger] self.entry(b, c, t) == (if b < bucket || (b
                            == bucket && t < target) {
                            before.entry(b, before.last_best(b, c, t), t)
                        } else {
                            before.entry(b, c, t)
                        }),
                decreases TARGETS - target,
            {
                let ghost previous = *self;
                self.cummax_column(bucket, target);
                proof {
                    assert forall|c: int| 0 <= c < COUNTS implies previous.last_best(
                        bucket as int,
                        c,
                        target as int,
                    ) == before.last_best(bucket as int, c, target as int) by {
                        assert forall|k: int| 0 <= k <= c implies previous.entry(
                            bucket as int,
                            k,
                            target as int,
                        ) == before.entry(bucket as int, k, target as int) by {
                            assert(in_table(bucket as int, k, target as int));
                        }
                        previous.lemma_last_best_local(before, bucket as int, c, target as int);
                    }
                    assert forall|b: int, c: int, t: int| in_table(b, c, t) implies #[trigger] self.entry(
                        b,
                        c,
                        t,
                    ) == (if b < bucket || (b == bucket && t < target + 1) {
                        before.entry(b, before.last_best(b, c, t), t)
                    } else {
                        before.entry(b, c, t)
                    }) by {
                        if b == bucket && t == target {
                            before.lemma_last_best(b, c, t);
                            let best = before.last_best(b, c, t);
                            assert(in_table(b, best, t));
                            assert(previous.entry(b, best, t) == before.entry(b, best, t));
                        } else {
                            assert(self.entry(b, c, t) == previous.entry(b, c, t));
                        }
                    }
                }
                target += 1;
            }
            bucket += 1;
        }
    }

    /// Returns, for one target and one cap on the levels, the entry of each
    /// cost, in increasing order of cost.
    pub fn column(&self, target: usize, cap: usize) -> (column: Vec<SearchEntry>)
        requires
            target < TARGETS,
            cap <= MAX_ABILITIES,
        ensures
            column.len() == COSTS,
            forall|bucket: int|
                0 <= bucket < COSTS ==> #[trigger] column[bucket] == self.entry(
                    bucket,
                    cap as int,
                    target as int,
                ),
    {
        let mut column: Vec<SearchEntry> = Vec::new();
        let mut bucket: usize = 0;
        while bucket < COSTS
            invariant
                bucket <= COSTS,
                target < TARGETS,
                cap <= MAX_ABILITIES,
                column.len() == bucket,
                forall|b: int|
                    0 <= b < bucket ==> #[trigger] column[b] == self.entry(
                        b,
                        cap as int,
                        target as int,
                    ),
            decreases COSTS - bucket,
        {
            column.push(self.get(bucket, cap, target));
            bucket += 1;
        }
        column
    }
}

/// Returns the first position of the catalog at which two configurations
/// differ, or the length of the catalog where they are the same. What was
/// rolled for the abilities before that position serves both.
pub fn first_difference(earlier: &Abilities, later: &Abilities) -> (at: usize)
    ensures
        at <= 8,
        forall|i: int| 0 <= i < at ==> earlier.level(i) == later.level(i),
        at < 8 ==> earlier.level(at as int) != later.level(at as int),
{
    let mut at: usize = 0;
    while at < 8 && earlier.peek(at) == later.peek(at)
        invariant
            at <= 8,
            forall|i: int| 0 <= i < at ==> earlier.level(i) == later.level(i),
        decreases 8 - at,
    {
        at += 1;
    }
    at
}

/// Whether `tables` are the states of a table during a search: every
/// chance is zero at first, and each step records the chances that
/// `chances` gives for the configuration that the walk visits.
pub open spec fn is_search(
    walk: Seq<Abilities>,
    chances: spec_fn(Abilities) -> Seq<OrdSub>,
    tables: Seq<SearchTable>,
) -> bool {
    &&& is_walk(walk)
    &&& tables.len() == walk.len() + 1
    &&& forall|bucket: int, count: int, target: int|
        in_table(bucket, count, target) ==> (#[trigger] tables[0].entry(
            bucket,
            count,
            target,
        )).proba.pattern() == 0
    &&& forall|k: int, bucket: int, count: int, target: int|
        0 <= k < walk.len() && in_table(bucket, count, target) ==> #[trigger] tables[k + 1].entry(
            bucket,
            count,
            target,
        ) == tables[k].recorded(walk[k], chances(walk[k]), bucket, count, target)
}

/// The place of a configuration in a table, for one target.
pub open spec fn place_of(table: SearchTable, configuration: Abilities, target: int) -> SearchEntry {
    table.entry(configuration.spent() / 2, configuration.total(), target)
}

/// Recording never lowers a chance in the table.
proof fn lemma_chances_grow(
    walk: Seq<Abilities>,
    chances: spec_fn(Abilities) -> Seq<OrdSub>,
    tables: Seq<SearchTable>,
    from: int,
    to: int,
    bucket: int,
    count: int,
    target: int,
)
    requires
        is_search(walk, chances, tables),
        0 <= from <= to <= walk.len(),
        in_table(bucket, count, target),
    ensures
        tables[from].entry(bucket, count, target).proba.rank() <= tables[to].entry(
            bucket,
            count,
            target,
        ).proba.rank(),
    decreases to - from,
{
    if from < to {
        lemma_chances_grow(walk, chances, tables, from, to - 1, bucket, count, target);
        assert(tables[to - 1 + 1].entry(bucket, count, target) == tables[to - 1].recorded(
            walk[to - 1],
            chances(walk[to - 1]),
            bucket,
            count,
            target,
        ));
    }
}

/// The search finds the best: once it is over, the chance that the table
/// holds at the place of a configuration within the limits is not below
/// the chance of that configuration, whatever the target.
pub proof fn lemma_table_holds_best(
    walk: Seq<Abilities>,
    chances: spec_fn(Abilities) -> Seq<OrdSub>,
    tables: Seq<SearchTable>,
    configuration: Abilities,
    target: int,
)
    requires
        is_search(walk, chances, tables),
        feasible(configuration),
        0 <= target < TARGETS,
    ensures
        chances(configuration)[target].rank() <= place_of(
            tables.last(),
            configuration,
            target,
        ).proba.rank(),
{
    let step = lemma_walk_visits(walk, configuration);
    let bucket = configuration.spent() / 2;
    let count = configuration.total();
    assert(in_table(bucket, count, target));
    assert(tables[step + 1].entry(bucket, count, target) == tables[step].recorded(
        walk[step],
        chances(walk[step]),
        bucket,
        count,
        target,
    ));
    lemma_chances_grow(walk, chances, tables, step + 1, walk.len() as int, bucket, count, target);
}

/// What the table holds is found: once the search is over, an entry holds
/// either no chance and no level, as at first, or a configuration that the
/// walk visited, at its own place and with its own chance.
pub proof fn lemma_table_holds_found(
    walk: Seq<Abilities>,
    chances: spec_fn(Abilities) -> Seq<OrdSub>,
    tables: Seq<SearchTable>,
    upto: int,
    bucket: int,
    count: int,
    target: int,
)
    requires
        is_search(walk, chances, tables),
        0 <= upto <= walk.len(),
        in_table(bucket, count, target),
    ensures
        ({
            let entry = tables[upto].entry(bucket, count, target);
            ||| entry == tables[0].entry(bucket, count, target)
            ||| exists|step: int|
                0 <= step < upto && entry.abilities == #[trigger] walk[step] && entry.proba
                    == chances(walk[step])[target] && bucket == walk[step].spent() / 2 && count
                    == walk[step].total()
        }),
    decreases upto,
{
    if upto > 0 {
        lemma_table_holds_found(walk, chances, tables, upto - 1, bucket, count, target);
        assert(tables[upto - 1 + 1].entry(bucket, count, target) == tables[upto - 1].recorded(
            walk[upto - 1],
            chances(walk[upto - 1]),
            bucket,
            count,
            target,
        ));
        let before = tables[upto - 1].entry(bucket, count, target);
        let entry = tables[upto].entry(bucket, count, target);
        if entry != before {
            assert(entry.abilities == walk[upto - 1]);
        } else if before != tables[0].entry(bucket, count, target) {
            let step = choose|step: int|
                0 <= step < upto - 1 && before.abilities == #[trigger] walk[step] && before.proba
                    == chances(walk[step])[target] && bucket == walk[step].spent() / 2 && count
                    == walk[step].total();
            assert(entry.abilities == walk[step]);
        }
    }
}

/// Returns the table in which every chance is zero and every configuration
/// is empty.
pub fn empty_table() -> (table: SearchTable)
    ensures
        forall|bucket: int, count: int, target: int|
            in_table(bucket, count, target) ==> {
                let entry = #[trigger] table.entry(bucket, count, target);
                entry.proba.pattern() == 0 && entry.abilities == Abilities::new_spec()
            },
{
    let blank = SearchEntry { proba: OrdSub::zero(), abilities: Abilities::new() };
    let mut entries: Vec<SearchEntry> = Vec::new();
    while entries.len() < CELLS
        invariant
            entries.len() <= CELLS,
            forall|i: int| 0 <= i < entries.len() ==> entries[i] == blank,
            blank.proba.pattern() == 0,
            blank.abilities == Abilities::new_spec(),
        decreases CELLS - entries.len(),
    {
        entries.push(blank);
    }
    let table = SearchTable { entries };
    assert forall|bucket: int, count: int, target: int|
        in_table(bucket, count, target) implies (#[trigger] table.entry(
        bucket,
        count,
        target,
    )) == blank by {
        assert(0 <= cell(bucket, count, target) < CELLS);
    }
    table
}

} // verus!
