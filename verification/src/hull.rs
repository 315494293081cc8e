//! The convex hull of the best chances of one challenge, by cost.
//!
//! The hull is the upper envelope of the points (cost, logarithm of the
//! chance): a list of vertices with growing cost and falling slope. It is
//! built by a sweep over the costs that keeps a stack of vertices. The
//! sweep decides; the numbers it needs, a logarithm or the slope between
//! two points, it asks of whoever drives it: take its `request`, hand the
//! `answer`, until the request is `Done`, then `finish`.

use vstd::prelude::*;

use crate::abilities::Abilities;
use crate::ord_sub::{rank_of, OrdSub, GREATEST};
use crate::search::SearchEntry;

verus! {

/// The pattern of one millionth: a chance that is not above it counts as
/// none.
pub const EPSILON: u32 = 0x3586_37bd;

/// The greatest number of costs that a sweep takes: twice the index of
/// each must be a cost.
pub const MAX_SWEEP: usize = 0x7fff_ffff;

/// A vertex of a hull.
#[derive(Debug, Copy, Clone)]
pub struct Vertex {
    /// The cost of the configuration.
    pub cost: u32,
    /// The logarithm of the chance to pass the challenge.
    pub log_proba: OrdSub,
    /// The slope from the vertex before: logarithm gained per point spent.
    pub slope: OrdSub,
    /// The configuration.
    pub abilities: Abilities,
}

/// A convex hull over the configurations of a challenge.
pub type ConvexHull = Vec<Vertex>;

/// What a sweep needs next.
#[derive(Debug, Copy, Clone)]
pub enum Request {
    /// The natural logarithm of `proba`.
    Logarithm { proba: OrdSub },
    /// The slope from one point to another: the difference of the
    /// logarithms over the difference of the costs.
    Slope { from_cost: u32, from_log: OrdSub, to_cost: u32, to_log: OrdSub },
    /// Nothing: the sweep is over.
    Done,
}

/// Whether the chance of an entry is above one millionth.
pub open spec fn significant(entry: SearchEntry) -> bool {
    entry.proba.rank() > rank_of(EPSILON)
}

/// The first index at or after `from` whose entry is significant, or the
/// length of the column.
pub open spec fn next_significant(column: Seq<SearchEntry>, from: int) -> int
    decreases column.len() - from,
{
    if from >= column.len() {
        column.len() as int
    } else if significant(column[from]) {
        from
    } else {
        next_significant(column, from + 1)
    }
}

/// Whether costs grow and slopes fall strictly along a list of vertices.
pub open spec fn is_hull(hull: Seq<Vertex>) -> bool {
    forall|i: int, j: int|
        0 <= i < j < hull.len() ==> (#[trigger] hull[i]).cost < (#[trigger] hull[j]).cost
            && hull[i].slope.rank() > hull[j].slope.rank()
}

/// Whether every vertex of a list stands for a significant entry of the
/// column: the entry at half its cost, with the configuration of that entry.
pub open spec fn drawn_from(hull: Seq<Vertex>, column: Seq<SearchEntry>) -> bool {
    forall|i: int|
        0 <= i < hull.len() ==> {
            let vertex = #[trigger] hull[i];
            &&& vertex.cost % 2 == 0
            &&& vertex.cost / 2 < column.len()
            &&& significant(column[vertex.cost as int / 2])
            &&& vertex.abilities == column[vertex.cost as int / 2].abilities
        }
}

/// A list of vertices without the vertices at its end that gain nothing:
/// those whose slope is not above zero.
pub open spec fn trimmed(hull: Seq<Vertex>) -> Seq<Vertex>
    decreases hull.len(),
{
    if hull.len() > 0 && hull.last().slope.rank() <= 0 {
        trimmed(hull.drop_last())
    } else {
        hull
    }
}

/// The state of a sweep.
pub ghost struct SweepView {
    /// The entry of each cost; the cost is twice the index.
    pub column: Seq<SearchEntry>,
    /// The index of the entry that the sweep is at.
    pub position: int,
    /// The logarithm of the chance of that entry, once it is known.
    pub log: Option<OrdSub>,
    /// The stack of vertices.
    pub hull: Seq<Vertex>,
}

impl SweepView {
    /// The state before the first answer: at the first significant entry,
    /// with an empty stack.
    pub open spec fn start(column: Seq<SearchEntry>) -> SweepView {
        SweepView {
            column,
            position: next_significant(column, 0),
            log: None,
            hull: Seq::empty(),
        }
    }

    /// What holds of every state of a sweep.
    pub open spec fn well_formed(self) -> bool {
        &&& self.column.len() <= MAX_SWEEP
        &&& 0 <= self.position <= self.column.len()
        &&& self.position < self.column.len() ==> significant(self.column[self.position])
        &&& self.log is Some ==> self.position < self.column.len() && self.hull.len() > 0
        &&& is_hull(self.hull)
        &&& drawn_from(self.hull, self.column)
        &&& forall|i: int| 0 <= i < self.hull.len() ==> (#[trigger] self.hull[i]).cost < 2 * self.position
    }

    /// Whether the sweep is over.
    pub open spec fn done(self) -> bool {
        self.position >= self.column.len()
    }

    /// What the sweep needs next.
    pub open spec fn request(self) -> Request {
        if self.done() {
            Request::Done
        } else {
            match self.log {
                None => Request::Logarithm { proba: self.column[self.position].proba },
                Some(log) => Request::Slope {
                    from_cost: self.hull.last().cost,
                    from_log: self.hull.last().log_proba,
                    to_cost: (2 * self.position) as u32,
                    to_log: log,
                },
            }
        }
    }

    /// The state once the entry that the sweep is at has become a vertex:
    /// the vertex is on the stack, and the sweep is at the next significant
    /// entry.
    pub open spec fn placed(self, log: OrdSub, slope: OrdSub) -> SweepView {
        SweepView {
            column: self.column,
            position: next_significant(self.column, self.position + 1),
            log: None,
            hull: self.hull.push(
                Vertex {
                    cost: (2 * self.position) as u32,
                    log_proba: log,
                    slope,
                    abilities: self.column[self.position].abilities,
                },
            ),
        }
    }

    /// The state after an answer.
    ///
    /// A logarithm makes the entry a vertex at once where the stack is
    /// empty, with the greatest finite slope; else the slope from the top
    /// of the stack is asked next. A slope below that of the top makes the
    /// entry a vertex. Any other slope removes the top, which lies under
    /// the envelope; the entry then becomes a vertex with that slope if
    /// the stack is empty, else the slope from the new top is asked next.
    pub open spec fn answer(self, value: OrdSub) -> SweepView {
        match self.log {
            None => if self.hull.len() == 0 {
                self.placed(value, OrdSub::with_pattern(GREATEST))
            } else {
                SweepView {
                    column: self.column,
                    position: self.position,
                    log: Some(value),
                    hull: self.hull,
                }
            },
            Some(log) => if value.rank() < self.hull.last().slope.rank() {
                self.placed(log, value)
            } else {
                let popped = SweepView {
                    column: self.column,
                    position: self.position,
                    log: self.log,
                    hull: self.hull.drop_last(),
                };
                if popped.hull.len() == 0 {
                    popped.placed(log, value)
                } else {
                    popped
                }
            },
        }
    }

    /// A bound on the number of answers that the sweep still needs.
    pub open spec fn work(self) -> int {
        3 * (self.column.len() - self.position) + self.hull.len() + if self.log is None {
            1int
        } else {
            0int
        }
    }
}

/// The next significant entry is a significant entry at or after `from`, or
/// the end of the column.
pub proof fn lemma_next_significant(column: Seq<SearchEntry>, from: int)
    requires
        0 <= from,
    ensures
        from <= next_significant(column, from) || next_significant(column, from) == column.len(),
        next_significant(column, from) <= column.len(),
        next_significant(column, from) < column.len() ==> significant(
            column[next_significant(column, from)],
        ),
        forall|i: int|
            from <= i < next_significant(column, from) ==> !significant(#[trigger] column[i]),
    decreases column.len() - from,
{
    if from < column.len() && !significant(column[from]) {
        lemma_next_significant(column, from + 1);
    }
}

/// What is left of a hull after trimming is a hull whose last slope, and
/// so every slope, is above zero.
pub proof fn lemma_trimmed(hull: Seq<Vertex>)
    requires
        is_hull(hull),
    ensures
        is_hull(trimmed(hull)),
        trimmed(hull).is_prefix_of(hull),
        forall|i: int| 0 <= i < trimmed(hull).len() ==> (#[trigger] trimmed(hull)[i]).slope.rank() > 0,
    decreases hull.len(),
{
    if hull.len() > 0 && hull.last().slope.rank() <= 0 {
        let shorter = hull.drop_last();
        assert forall|i: int, j: int| 0 <= i < j < shorter.len() implies (#[trigger] shorter[i]).cost
            < (#[trigger] shorter[j]).cost && shorter[i].slope.rank() > shorter[j].slope.rank() by {
            assert(shorter[i] == hull[i] && shorter[j] == hull[j]);
        }
        lemma_trimmed(shorter);
    } else {
        assert forall|i: int| 0 <= i < hull.len() implies (#[trigger] hull[i]).slope.rank() > 0 by {
            if i < hull.len() - 1 {
                assert(hull[i].slope.rank() > hull[hull.len() - 1].slope.rank());
            }
        }
    }
}

/// An answer leaves a sweep well formed, and the sweep needs fewer answers
/// after it.
pub proof fn lemma_answer(state: SweepView, value: OrdSub)
    requires
        state.well_formed(),
        !state.done(),
    ensures
        state.answer(value).well_formed(),
        state.answer(value).work() < state.work(),
        state.answer(value).column == state.column,
{
    lemma_next_significant(state.column, state.position + 1);
    let next = state.answer(value);
    if state.log is Some && !(value.rank() < state.hull.last().slope.rank()) {
        let shorter = state.hull.drop_last();
        assert forall|i: int| 0 <= i < shorter.len() implies shorter[i] == state.hull[i] by {}
        assert(is_hull(shorter)) by {
            assert forall|i: int, j: int| 0 <= i < j < shorter.len() implies (#[trigger] shorter[i]).cost
                < (#[trigger] shorter[j]).cost && shorter[i].slope.rank()
                > shorter[j].slope.rank() by {
                assert(shorter[i] == state.hull[i] && shorter[j] == state.hull[j]);
            }
        }
    }
    let hull = next.hull;
    assert forall|i: int, j: int| 0 <= i < j < hull.len() implies (#[trigger] hull[i]).cost
        < (#[trigger] hull[j]).cost && hull[i].slope.rank() > hull[j].slope.rank() by {
        if j < state.hull.len() {
            assert(hull[i] == state.hull[i] && hull[j] == state.hull[j]);
        } else {
            assert(hull[i] == state.hull[i]);
            assert(state.hull[i].cost <= state.hull.last().cost);
            assert(state.hull[i].slope.rank() >= state.hull.last().slope.rank()) by {
                if i < state.hull.len() - 1 {
                    assert(state.hull[i].slope.rank() > state.hull[state.hull.len()
                        - 1].slope.rank());
                }
            }
        }
    }
    assert forall|i: int| 0 <= i < hull.len() implies (#[trigger] hull[i]).cost < 2
        * next.position by {
        if next.position == state.position {
            assert(hull[i] == state.hull[i]);
        } else if i < hull.len() - 1 {
            assert(hull[i] == state.hull[i]);
        }
    }
}

/// A sweep over the entries of one column.
pub struct Sweep {
    column: Vec<SearchEntry>,
    position: usize,
    log: Option<OrdSub>,
    hull: Vec<Vertex>,
}

impl View for Sweep {
    type V = SweepView;

    closed spec fn view(&self) -> SweepView {
        SweepView {
            column: self.column@,
            position: self.position as int,
            log: self.log,
            hull: self.hull@,
        }
    }
}

/// Returns whether the chance of an entry is above one millionth.
pub fn is_significant(entry: &SearchEntry) -> (above: bool)
    ensures
        above == significant(*entry),
{
    let threshold = OrdSub::new(EPSILON).unwrap();
    entry.proba > threshold
}

/// Returns the first index at or after `from` whose entry is significant,
/// or the length of the column.
fn skip_to_significant(column: &Vec<SearchEntry>, from: usize) -> (at: usize)
    requires
        from <= column.len(),
    ensures
        at == next_significant(column@, from as int),
        from <= at <= column.len(),
{
    let mut at: usize = from;
    while at < column.len() && !is_significant(&column[at])
        invariant
            from <= at <= column.len(),
            next_significant(column@, from as int) == next_significant(column@, at as int),
        decreases column.len() - at,
    {
        at += 1;
    }
    at
}

impl Sweep {
    /// Starts a sweep over a column: the entry at index `i` is the best
    /// one of cost `2 * i`.
    pub fn new(column: Vec<SearchEntry>) -> (sweep: Sweep)
        requires
            column.len() <= MAX_SWEEP,
        ensures
            sweep@ == SweepView::start(column@),
            sweep@.well_formed(),
    {
        let position: usize = skip_to_significant(&column, 0);
        proof {
            lemma_next_significant(column@, 0);
        }
        Sweep { column, position, log: None, hull: Vec::new() }
    }

    /// Returns whether the sweep is over.
    pub fn is_done(&self) -> (done: bool)
        ensures
            done == self@.done(),
    {
        self.position >= self.column.len()
    }

    /// Returns what the sweep needs next.
    pub fn request(&self) -> (request: Request)
        requires
            self@.well_formed(),
        ensures
            request == self@.request(),
    {
        if self.position >= self.column.len() {
            Request::Done
        } else {
            match self.log {
                None => Request::Logarithm { proba: self.column[self.position].proba },
                Some(log) => {
                    let top: &Vertex = &self.hull[self.hull.len() - 1];
                    Request::Slope {
                        from_cost: top.cost,
                        from_log: top.log_proba,
                        to_cost: (2 * self.position) as u32,
                        to_log: log,
                    }
                },
            }
        }
    }

    /// Makes the entry that the sweep is at a vertex, and moves on.
    fn place(&mut self, log: OrdSub, slope: OrdSub)
        requires
            old(self).column.len() <= MAX_SWEEP,
            old(self).position < old(self).column.len(),
        ensures
            final(self)@ == old(self)@.placed(log, slope),
    {
        let entry: SearchEntry = self.column[self.position];
        self.hull.push(
            Vertex {
                cost: (2 * self.position) as u32,
                log_proba: log,
                slope,
                abilities: entry.abilities,
            },
        );
        self.position = skip_to_significant(&self.column, self.position + 1);
        self.log = None;
    }

    /// Takes the answer to the last request.
    pub fn answer(&mut self, value: OrdSub)
        requires
            old(self)@.well_formed(),
            !old(self)@.done(),
        ensures
            final(self)@ == old(self)@.answer(value),
            final(self)@.well_formed(),
            final(self)@.work() < old(self)@.work(),
    {
        proof {
            lemma_answer(self@, value);
        }
        match self.log {
            None => {
                if self.hull.len() == 0 {
                    self.place(value, OrdSub::greatest());
                } else {
                    self.log = Some(value);
                }
            },
            Some(log) => {
                if value < self.hull[self.hull.len() - 1].slope {
                    self.place(log, value);
                } else {
                    self.hull.pop();
                    if self.hull.len() == 0 {
                        self.place(log, value);
                    }
                }
            },
        }
    }

    /// Ends the sweep and returns the hull: the stack without the vertices
    /// at its end that gain nothing. Costs grow and slopes fall strictly
    /// along it, and every slope is above zero.
    pub fn finish(self) -> (hull: ConvexHull)
        requires
            self@.well_formed(),
            self@.done(),
        ensures
            hull@ == trimmed(self@.hull),
            is_hull(hull@),
            drawn_from(hull@, self@.column),
            forall|i: int| 0 <= i < hull.len() ==> (#[trigger] hull[i]).slope.rank() > 0,
    {
        let mut hull = self.hull;
        proof {
            lemma_trimmed(hull@);
        }
        while hull.len() > 0 && !(hull[hull.len() - 1].slope > OrdSub::zero())
            invariant
                trimmed(hull@) == trimmed(self@.hull),
            decreases hull.len(),
        {
            hull.pop();
        }
        hull
    }
}

} // verus!
