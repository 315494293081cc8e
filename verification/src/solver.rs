//! The hulls of every challenge under every set of rewards.
//!
//! The table of a search depends on the rewards that shape the rolls; the
//! reward of one more ability shapes none. So one search serves two sets
//! of rewards, the one with that reward and the one without: only the cap
//! at which the table is read differs.

use vstd::prelude::*;

use crate::challenges::Challenge;
use crate::hull::{ConvexHull, Vertex};
use crate::rewards::{Rewards, ADDITIONAL_ABILITY, ALL};
use crate::search::{SearchEntry, SearchTable, COSTS};

verus! {

/// The number of sets of rewards.
pub const COMBINATIONS: usize = 256;

/// Whether a set of rewards holds the reward of one more ability.
pub open spec fn has_additional(mask: u32) -> bool {
    mask & ADDITIONAL_ABILITY == ADDITIONAL_ABILITY
}

/// The cap on abilities of a challenge under a set of rewards.
pub open spec fn cap_under(challenge: Challenge, mask: u32) -> int {
    if has_additional(mask) {
        challenge.abilities + 1
    } else {
        challenge.abilities as int
    }
}

/// Returns the rewards that shape the rolls: all but the reward of one more
/// ability.
pub fn roll_context(rewards: Rewards) -> (context: Rewards)
    ensures
        context.mask() == rewards.mask() & !ADDITIONAL_ABILITY,
{
    rewards.difference(Rewards::additional_ability())
}

/// Returns the set of rewards that differs from `rewards` in the reward of
/// one more ability and in nothing else. Both are served by one search.
pub fn partner(rewards: Rewards) -> (other: Rewards)
    ensures
        other.mask() == rewards.mask() ^ ADDITIONAL_ABILITY,
{
    rewards.symmetric_difference(Rewards::additional_ability())
}

/// Returns the entries from which the hull of a challenge under a set of
/// rewards is built: for each cost, the best entry for the target of the
/// challenge within its cap, which the reward of one more ability raises
/// by one.
pub fn challenge_column(table: &SearchTable, challenge: &Challenge, rewards: Rewards) -> (column:
    Vec<SearchEntry>)
    requires
        challenge.in_range(),
    ensures
        column.len() == COSTS,
        forall|bucket: int|
            0 <= bucket < COSTS ==> #[trigger] column[bucket] == table.entry(
                bucket,
                cap_under(*challenge, rewards.mask()),
                challenge.target_idx as int,
            ),
{
    let extra: usize = if rewards.contains(Rewards::additional_ability()) {
        1
    } else {
        0
    };
    table.column(challenge.target_idx, challenge.abilities as usize + extra)
}

/// The hulls of every challenge for the sets of rewards solved so far.
pub struct ChallengeSolver {
    challenges: usize,
    cache: Vec<Option<Vec<ConvexHull>>>,
}

impl ChallengeSolver {
    #[verifier::type_invariant]
    spec fn well_formed(self) -> bool {
        self.cache.len() == COMBINATIONS
    }

    /// The number of challenges.
    pub closed spec fn challenges(self) -> nat {
        self.challenges as nat
    }

    /// Whether the set of rewards with this mask is solved.
    pub closed spec fn solved(self, mask: u32) -> bool {
        &&& mask < COMBINATIONS
        &&& self.cache[mask as int] matches Some(hulls)
        &&& hulls.len() == self.challenges
    }

    /// The hull of each challenge under the set of rewards with this mask;
    /// none where the set is not solved.
    pub closed spec fn hulls(self, mask: u32) -> Seq<Seq<Vertex>> {
        if self.solved(mask) {
            let stored = self.cache[mask as int]->0;
            Seq::new(stored@.len(), |i: int| stored@[i]@)
        } else {
            Seq::empty()
        }
    }

    /// Whether every set of rewards is solved.
    pub open spec fn complete(self) -> bool {
        forall|mask: u32| mask <= ALL ==> self.solved(mask)
    }

    /// Every solved set of rewards has one hull for each challenge.
    pub proof fn lemma_hulls(self, mask: u32)
        requires
            self.solved(mask),
        ensures
            self.hulls(mask).len() == self.challenges(),
    {
    }

    /// Returns a solver for a list of challenges, with no set of rewards
    /// solved yet.
    pub fn new(challenges: &Vec<Challenge>) -> (solver: ChallengeSolver)
        ensures
            solver.challenges() == challenges.len(),
            forall|mask: u32| !solver.solved(mask),
    {
        let mut cache: Vec<Option<Vec<ConvexHull>>> = Vec::new();
        while cache.len() < COMBINATIONS
            invariant
                cache.len() <= COMBINATIONS,
                forall|mask: int| 0 <= mask < cache.len() ==> cache[mask] is None,
            decreases COMBINATIONS - cache.len(),
        {
            cache.push(None);
        }
        ChallengeSolver { challenges: challenges.len(), cache }
    }

    /// Returns the number of challenges.
    pub fn len(&self) -> (count: usize)
        ensures
            count == self.challenges(),
    {
        self.challenges
    }

    /// Returns whether a set of rewards is solved.
    pub fn is_solved(&self, rewards: Rewards) -> (solved: bool)
        ensures
            solved == self.solved(rewards.mask()),
    {
        proof {
            use_type_invariant(self);
        }
        match &self.cache[rewards.bits() as usize] {
            Some(hulls) => hulls.len() == self.challenges,
            None => false,
        }
    }

    /// Returns whether every set of rewards is solved.
    pub fn is_complete(&self) -> (complete: bool)
        ensures
            complete == self.complete(),
    {
        proof {
            use_type_invariant(self);
        }
        let mut mask: usize = 0;
        while mask < COMBINATIONS
            invariant
                mask <= COMBINATIONS,
                self.cache.len() == COMBINATIONS,
                forall|m: u32| m < mask ==> self.solved(m),
            decreases COMBINATIONS - mask,
        {
            let solved = match &self.cache[mask] {
                Some(hulls) => hulls.len() == self.challenges,
                None => false,
            };
            if !solved {
                assert(!self.solved(mask as u32));
                return false;
            }
            mask += 1;
        }
        true
    }

    /// Stores the hulls of the challenges under a set of rewards, one for
    /// each challenge, in place of any stored for it before.
    pub fn store(&mut self, rewards: Rewards, hulls: Vec<ConvexHull>)
        requires
            hulls.len() == old(self).challenges(),
        ensures
            final(self).challenges() == old(self).challenges(),
            final(self).solved(rewards.mask()),
            final(self).hulls(rewards.mask()) == Seq::new(hulls.len() as nat, |i: int| hulls[i]@),
            forall|mask: u32|
                mask != rewards.mask() ==> final(self).solved(mask) == old(self).solved(mask)
                    && final(self).hulls(mask) == old(self).hulls(mask),
    {
        proof {
            use_type_invariant(&*self);
        }
        let at: usize = rewards.bits() as usize;
        self.cache[at] = Some(hulls);
    }

    /// Returns the hull of a challenge under a set of rewards.
    pub fn solution_to(&self, rewards: Rewards, challenge_idx: usize) -> (hull: &ConvexHull)
        requires
            self.solved(rewards.mask()),
            challenge_idx < self.challenges(),
        ensures
            hull@ == self.hulls(rewards.mask())[challenge_idx as int],
    {
        proof {
            use_type_invariant(self);
        }
        let at: usize = rewards.bits() as usize;
        let hulls: &Vec<ConvexHull> = self.cache[at].as_ref().unwrap();
        &hulls[challenge_idx]
    }
}

/// Storing for a set of rewards the hulls that are stored for it changes
/// nothing: every set of rewards is solved after the store if it was
/// before, and with the same hulls.
pub proof fn lemma_store_again(
    before: ChallengeSolver,
    after: ChallengeSolver,
    mask: u32,
    hulls: Seq<Seq<Vertex>>,
)
    requires
        before.solved(mask),
        before.hulls(mask) == hulls,
        after.solved(mask),
        after.hulls(mask) == hulls,
        forall|other: u32|
            other != mask ==> after.solved(other) == before.solved(other) && after.hulls(other)
                == before.hulls(other),
    ensures
        forall|any: u32|
            after.solved(any) == before.solved(any) && after.hulls(any) == before.hulls(any),
{
}

} // verus!
