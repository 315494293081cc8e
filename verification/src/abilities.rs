//! The catalog of abilities and a counter of the levels bought in each.

use vstd::prelude::*;

verus! {

/// The abilities that can be invested in, in catalog order.
#[derive(Debug, Copy, Clone, PartialEq, Eq, Structural)]
pub enum Ability {
    Atmosphere,
    Diction,
    Precision,
    Calmness,
    Focus,
    Style,
    Rhythm,
    Timing,
}

/// The number of abilities in the catalog.
pub const ABILITIES: usize = 8;

/// The cost of one level of the ability at `position` of the catalog.
pub open spec fn cost_at(position: int) -> int {
    if position == 0 {
        4
    } else if position == 1 {
        6
    } else if position == 2 {
        8
    } else if position == 3 {
        10
    } else if position == 4 {
        12
    } else if position == 5 {
        20
    } else if position == 6 {
        30
    } else {
        100
    }
}

impl Ability {
    /// The position of the ability in the catalog.
    pub open spec fn position(self) -> int {
        match self {
            Ability::Atmosphere => 0,
            Ability::Diction => 1,
            Ability::Precision => 2,
            Ability::Calmness => 3,
            Ability::Focus => 4,
            Ability::Style => 5,
            Ability::Rhythm => 6,
            Ability::Timing => 7,
        }
    }

    /// The ability at a position of the catalog.
    pub open spec fn at(position: int) -> Ability {
        if position == 0 {
            Ability::Atmosphere
        } else if position == 1 {
            Ability::Diction
        } else if position == 2 {
            Ability::Precision
        } else if position == 3 {
            Ability::Calmness
        } else if position == 4 {
            Ability::Focus
        } else if position == 5 {
            Ability::Style
        } else if position == 6 {
            Ability::Rhythm
        } else {
            Ability::Timing
        }
    }

    /// The cost of one level of the ability.
    pub open spec fn spec_cost(self) -> int {
        cost_at(self.position())
    }

    /// Returns the catalog: every ability once, in increasing order of cost.
    pub fn values() -> (catalog: [Ability; 8])
        ensures
            forall|i: int| 0 <= i < 8 ==> catalog[i] == Ability::at(i),
    {
        [
            Ability::Atmosphere,
            Ability::Diction,
            Ability::Precision,
            Ability::Calmness,
            Ability::Focus,
            Ability::Style,
            Ability::Rhythm,
            Ability::Timing,
        ]
    }

    /// Returns the cost of one level of the ability.
    pub fn cost(&self) -> (cost: u32)
        ensures
            cost == self.spec_cost(),
    {
        match self {
            Ability::Atmosphere => 4,
            Ability::Diction => 6,
            Ability::Precision => 8,
            Ability::Calmness => 10,
            Ability::Focus => 12,
            Ability::Style => 20,
            Ability::Rhythm => 30,
            Ability::Timing => 100,
        }
    }
}

/// The catalog positions and the abilities correspond one to one, and the
/// cost grows strictly along the catalog.
pub proof fn lemma_catalog()
    ensures
        forall|a: Ability| 0 <= #[trigger] a.position() < 8 && Ability::at(a.position()) == a,
        forall|i: int| 0 <= i < 8 ==> (#[trigger] Ability::at(i)).position() == i,
        forall|i: int, j: int|
            #![trigger cost_at(i), cost_at(j)]
            0 <= i < j < 8 ==> 4 <= cost_at(i) < cost_at(j) <= 100,
{
}

/// A counter of the levels bought in each ability.
#[derive(Debug, Copy, Clone, PartialEq, Eq)]
pub struct Abilities {
    abilities: [u8; 8],
}

impl View for Abilities {
    type V = Seq<u8>;

    /// The levels, by catalog position.
    open spec fn view(&self) -> Seq<u8> {
        Seq::new(8, |i: int| self.level(i))
    }
}

impl Abilities {
    /// The levels bought in the ability at `position` of the catalog.
    pub closed spec fn level(self, position: int) -> u8 {
        self.abilities[position]
    }

    /// The number of levels bought, over all abilities.
    pub open spec fn total(self) -> int {
        self.level(0) + self.level(1) + self.level(2) + self.level(3) + self.level(4)
            + self.level(5) + self.level(6) + self.level(7)
    }

    /// The points spent on all levels together: each level at the cost of
    /// its ability.
    pub open spec fn spent(self) -> int {
        cost_at(0) * self.level(0) + cost_at(1) * self.level(1) + cost_at(2) * self.level(2)
            + cost_at(3) * self.level(3) + cost_at(4) * self.level(4) + cost_at(5) * self.level(5)
            + cost_at(6) * self.level(6) + cost_at(7) * self.level(7)
    }

    /// The counter with `levels` in the ability at `position` and the levels
    /// of `self` in the others.
    pub closed spec fn with_level(self, position: int, levels: u8) -> Abilities {
        Abilities {
            abilities: [
                if position == 0 { levels } else { self.level(0) },
                if position == 1 { levels } else { self.level(1) },
                if position == 2 { levels } else { self.level(2) },
                if position == 3 { levels } else { self.level(3) },
                if position == 4 { levels } else { self.level(4) },
                if position == 5 { levels } else { self.level(5) },
                if position == 6 { levels } else { self.level(6) },
                if position == 7 { levels } else { self.level(7) },
            ],
        }
    }

    /// `with_level` changes the levels at its position and no others.
    pub proof fn lemma_with_level(self, position: int, levels: u8)
        ensures
            forall|i: int|
                0 <= i < 8 ==> #[trigger] self.with_level(position, levels).level(i) == if i
                    == position {
                    levels
                } else {
                    self.level(i)
                },
    {
    }

    /// The counter that holds, for each ability, the levels of `self` and
    /// of `other` together.
    pub closed spec fn plus(self, other: Abilities) -> Abilities {
        Abilities {
            abilities: [
                (self.level(0) + other.level(0)) as u8,
                (self.level(1) + other.level(1)) as u8,
                (self.level(2) + other.level(2)) as u8,
                (self.level(3) + other.level(3)) as u8,
                (self.level(4) + other.level(4)) as u8,
                (self.level(5) + other.level(5)) as u8,
                (self.level(6) + other.level(6)) as u8,
                (self.level(7) + other.level(7)) as u8,
            ],
        }
    }

    /// Where no sum leaves the range of a counter, `plus` adds level by
    /// level.
    pub proof fn lemma_plus(self, other: Abilities)
        requires
            forall|i: int| 0 <= i < 8 ==> self.level(i) + other.level(i) <= u8::MAX,
        ensures
            forall|i: int|
                0 <= i < 8 ==> self.plus(other).level(i) == self.level(i) + other.level(i),
    {
    }

    /// Two counters with the same levels are the same counter.
    pub proof fn lemma_same_levels(self, other: Abilities)
        requires
            forall|i: int| 0 <= i < 8 ==> self.level(i) == other.level(i),
        ensures
            self == other,
    {
        assert forall|i: int| 0 <= i < 8 implies self.abilities[i] == other.abilities[i] by {
            assert(self.level(i) == other.level(i));
        }
        assert(self.abilities =~= other.abilities);
    }

    /// The counter with no level bought.
    pub closed spec fn new_spec() -> Abilities {
        Abilities { abilities: [0u8, 0u8, 0u8, 0u8, 0u8, 0u8, 0u8, 0u8] }
    }

    /// The empty counter has no level in any ability.
    pub proof fn lemma_new()
        ensures
            forall|i: int| 0 <= i < 8 ==> Abilities::new_spec().level(i) == 0,
    {
    }

    /// Returns the counter with no level bought.
    #[verifier::when_used_as_spec(new_spec)]
    pub fn new() -> (empty: Abilities)
        ensures
            empty == Abilities::new_spec(),
            forall|i: int| 0 <= i < 8 ==> empty.level(i) == 0,
    {
        let empty = Abilities { abilities: [0; 8] };
        proof {
            empty.lemma_same_levels(Abilities::new_spec());
        }
        empty
    }

    /// Returns the position of an ability in the catalog.
    pub fn index_of(ability: Ability) -> (position: usize)
        ensures
            position == ability.position(),
    {
        match ability {
            Ability::Atmosphere => 0,
            Ability::Diction => 1,
            Ability::Precision => 2,
            Ability::Calmness => 3,
            Ability::Focus => 4,
            Ability::Style => 5,
            Ability::Rhythm => 6,
            Ability::Timing => 7,
        }
    }

    /// Returns the number of levels bought, over all abilities.
    pub fn levels(&self) -> (count: u32)
        ensures
            count == self.total(),
    {
        self.peek(0) as u32 + self.peek(1) as u32 + self.peek(2) as u32 + self.peek(3) as u32
            + self.peek(4) as u32 + self.peek(5) as u32 + self.peek(6) as u32 + self.peek(7) as u32
    }

    /// Returns the points spent on all levels together.
    pub fn cost(&self) -> (cost: u32)
        ensures
            cost == self.spent(),
    {
        4 * (self.peek(0) as u32) + 6 * (self.peek(1) as u32) + 8 * (self.peek(2) as u32) + 10 * (
        self.peek(3) as u32) + 12 * (self.peek(4) as u32) + 20 * (self.peek(5) as u32) + 30 * (
        self.peek(6) as u32) + 100 * (self.peek(7) as u32)
    }

    /// Returns the levels bought in `ability`.
    pub fn get(&self, ability: Ability) -> (levels: u8)
        ensures
            levels == self.level(ability.position()),
    {
        self.abilities[Self::index_of(ability)]
    }

    /// Sets the levels bought in the ability at `position` of the catalog,
    /// leaving the other abilities as they are.
    pub fn put(&mut self, position: usize, levels: u8)
        requires
            position < 8,
        ensures
            *final(self) == old(self).with_level(position as int, levels),
            final(self).level(position as int) == levels,
            forall|i: int|
                0 <= i < 8 && i != position ==> final(self).level(i) == old(self).level(i),
    {
        self.abilities[position] = levels;
        proof {
            old(self).lemma_with_level(position as int, levels);
            self.lemma_same_levels(old(self).with_level(position as int, levels));
        }
    }

    /// Returns the levels bought in the ability at `position` of the
    /// catalog.
    pub fn peek(&self, position: usize) -> (levels: u8)
        requires
            position < 8,
        ensures
            levels == self.level(position as int),
    {
        self.abilities[position]
    }

    /// Sets the levels bought in `ability`, leaving the other abilities as
    /// they are.
    pub fn set(&mut self, ability: Ability, levels: u8)
        ensures
            *final(self) == old(self).with_level(ability.position(), levels),
            final(self).level(ability.position()) == levels,
            forall|i: int|
                0 <= i < 8 && i != ability.position() ==> final(self).level(i) == old(self).level(
                    i,
                ),
    {
        self.put(Self::index_of(ability), levels);
    }
}

impl vstd::std_specs::core::IndexSpecImpl<Ability> for Abilities {
    /// Every ability has its counter.
    open spec fn index_req(&self, index: &Ability) -> bool {
        true
    }
}

impl core::ops::Index<Ability> for Abilities {
    type Output = u8;

    /// Borrows the levels bought in `ability`.
    fn index(&self, ability: Ability) -> (levels: &u8)
        ensures
            *levels == self.level(ability.position()),
    {
        &self.abilities[Self::index_of(ability)]
    }
}

impl core::ops::IndexMut<Ability> for Abilities {
    /// Borrows the levels bought in `ability` for writing.
    fn index_mut(&mut self, ability: Ability) -> (levels: &mut u8)
        ensures
            *levels == old(self).level(ability.position()),
            final(self).level(ability.position()) == *final(levels),
            forall|i: int|
                0 <= i < 8 && i != ability.position() ==> final(self).level(i) == old(self).level(
                    i,
                ),
    {
        let position: usize = Self::index_of(ability);
        &mut self.abilities[position]
    }
}

impl vstd::std_specs::ops::AddSpecImpl<&Abilities> for Abilities {
    open spec fn obeys_add_spec() -> bool {
        true
    }

    /// No ability may end with more levels than a counter holds.
    open spec fn add_req(self, rhs: &Abilities) -> bool {
        forall|i: int| 0 <= i < 8 ==> self.level(i) + rhs.level(i) <= u8::MAX
    }

    open spec fn add_spec(self, rhs: &Abilities) -> Abilities {
        self.plus(*rhs)
    }
}

impl core::ops::Add<&Abilities> for Abilities {
    type Output = Abilities;

    /// Adds the levels of `rhs` to those of `self`, ability by ability.
    fn add(self, rhs: &Abilities) -> (sum: Abilities)
        ensures
            forall|i: int| 0 <= i < 8 ==> sum.level(i) == self.level(i) + rhs.level(i),
    {
        let mut output = Abilities::new();
        let mut position: usize = 0;
        while position < 8
            invariant
                position <= 8,
                forall|i: int| 0 <= i < 8 ==> self.level(i) + rhs.level(i) <= u8::MAX,
                forall|i: int| 0 <= i < position ==> output.level(i) == self.level(i) + rhs.level(i),
            decreases 8 - position,
        {
            output.put(position, self.peek(position) + rhs.peek(position));
            position += 1;
        }
        proof {
            self.lemma_plus(*rhs);
            output.lemma_same_levels(self.plus(*rhs));
        }
        output
    }
}

impl Default for Abilities {
    /// Returns the counter with no level bought.
    fn default() -> (empty: Abilities)
        ensures
            forall|i: int| 0 <= i < 8 ==> empty.level(i) == 0,
    {
        Abilities::new()
    }
}

} // verus!
