//! The text format of a list of challenges.
//!
//! A challenge takes two lines. The first holds, parted by tabs, the name,
//! the target as `Target: ` and a number, and the cap as `Max Abilities: `
//! and a number; the second holds `Reward: ` and the name of the reward.
//! White space around each of these is dropped.

use vstd::prelude::*;

use crate::challenges::{target_index, target_position, Challenge, ChallengeView, TARGET_SET};
use crate::rewards::{mask_named, Rewards};
use crate::text::{
    chars_of, cut, field, field_bounds, line_bounds, lines, number, parse_number, small_number,
    starts_with, strip_prefix, trim, trim_bounds,
};

verus! {

/// What follows `label` in a text, once the white space around the text is
/// dropped; nothing where the text does not start with the label.
pub open spec fn labelled(s: Seq<char>, label: Seq<char>) -> Option<Seq<char>> {
    strip_prefix(trim(s), label)
}

/// The index of the target that the second field of a line names.
pub open spec fn target_of(first: Seq<char>) -> Option<usize> {
    match field(first, 1) {
        Some(text) => match labelled(text, "Target: "@) {
            Some(digits) => match number(digits) {
                Some(value) => target_index(value),
                None => None,
            },
            None => None,
        },
        None => None,
    }
}

/// The cap on abilities that the third field of a line names.
pub open spec fn cap_of(first: Seq<char>) -> Option<u32> {
    match field(first, 2) {
        Some(text) => match labelled(text, "Max Abilities: "@) {
            Some(digits) => small_number(digits),
            None => None,
        },
        None => None,
    }
}

/// The mask of the reward that a line names.
pub open spec fn reward_of(second: Seq<char>) -> Option<u32> {
    match labelled(second, "Reward: "@) {
        Some(name) => Some(mask_named(name)),
        None => None,
    }
}

/// The challenge that two lines describe, where they describe one.
pub open spec fn entry(first: Seq<char>, second: Seq<char>) -> Option<ChallengeView> {
    if target_of(first) is Some && cap_of(first) is Some && reward_of(second) is Some {
        Some(
            ChallengeView {
                name: trim(field(first, 0)->0),
                target_idx: target_of(first)->0,
                abilities: cap_of(first)->0,
                reward: reward_of(second)->0,
            },
        )
    } else {
        None
    }
}

/// The challenges that a text describes: one for each pair of lines, in
/// order, where every pair describes one. A last line without a partner is
/// ignored.
pub open spec fn parsed(text: Seq<char>) -> Option<Seq<ChallengeView>> {
    let all = lines(text);
    let count = all.len() / 2;
    if forall|k: int| 0 <= k < count ==> (#[trigger] entry(all[2 * k], all[2 * k + 1])) is Some {
        Some(Seq::new(count, |k: int| entry(all[2 * k], all[2 * k + 1])->0))
    } else {
        None
    }
}

/// Returns the bounds of what follows `label` between `from` and `to`, once
/// the white space around is dropped.
fn labelled_bounds(chars: &Vec<char>, from: usize, to: usize, label: &str) -> (bounds: Option<
    (usize, usize),
>)
    requires
        from <= to <= chars.len(),
    ensures
        match bounds {
            Some((start, end)) => from <= start <= end <= to && labelled(
                chars@.subrange(from as int, to as int),
                label@,
            ) == Some(chars@.subrange(start as int, end as int)),
            None => labelled(chars@.subrange(from as int, to as int), label@) is None,
        },
{
    let (start, end) = trim_bounds(chars, from, to);
    let prefix = chars_of(label);
    if starts_with(chars, start, end, &prefix) {
        assert(chars@.subrange(start as int, end as int).skip(prefix.len() as int)
            =~= chars@.subrange(start + prefix.len(), end as int));
        Some((start + prefix.len(), end))
    } else {
        None
    }
}

/// Reads the index of the target from the first line of a challenge.
fn parse_target(chars: &Vec<char>, from: usize, to: usize) -> (index: Option<usize>)
    requires
        from <= to <= chars.len(),
    ensures
        index == target_of(chars@.subrange(from as int, to as int)),
        index matches Some(i) ==> i < 9,
{
    let (start, end) = match field_bounds(chars, from, to, 1) {
        Some(bounds) => bounds,
        None => {
            return None;
        },
    };
    let (start, end) = match labelled_bounds(chars, start, end, "Target: ") {
        Some(bounds) => bounds,
        None => {
            return None;
        },
    };
    match parse_number(chars, start, end) {
        Some(value) => target_position(value as usize),
        None => {
            proof {
                let digits = chars@.subrange(start as int, end as int);
                if number(digits) is Some {
                    let value = number(digits)->0;
                    assert(forall|i: int| 0 <= i < 9 ==> TARGET_SET[i] != value);
                }
            }
            None
        },
    }
}

/// Reads the cap on abilities from the first line of a challenge.
fn parse_cap(chars: &Vec<char>, from: usize, to: usize) -> (cap: Option<u32>)
    requires
        from <= to <= chars.len(),
    ensures
        cap == cap_of(chars@.subrange(from as int, to as int)),
{
    let (start, end) = match field_bounds(chars, from, to, 2) {
        Some(bounds) => bounds,
        None => {
            return None;
        },
    };
    let (start, end) = match labelled_bounds(chars, start, end, "Max Abilities: ") {
        Some(bounds) => bounds,
        None => {
            return None;
        },
    };
    parse_number(chars, start, end)
}

/// Reads the reward from the second line of a challenge.
fn parse_reward(chars: &Vec<char>, from: usize, to: usize) -> (reward: Option<Rewards>)
    requires
        from <= to <= chars.len(),
    ensures
        match reward {
            Some(set) => reward_of(chars@.subrange(from as int, to as int)) == Some(set.mask()),
            None => reward_of(chars@.subrange(from as int, to as int)) is None,
        },
{
    match labelled_bounds(chars, from, to, "Reward: ") {
        Some((start, end)) => Some(Rewards::named(chars, start, end)),
        None => None,
    }
}

/// Reads the challenge that two lines of `text` describe.
fn parse_entry(
    text: &str,
    chars: &Vec<char>,
    first: (usize, usize),
    second: (usize, usize),
) -> (challenge: Option<Challenge>)
    requires
        chars@ == text@,
        first.0 <= first.1 <= chars.len(),
        second.0 <= second.1 <= chars.len(),
    ensures
        match challenge {
            Some(c) => entry(
                chars@.subrange(first.0 as int, first.1 as int),
                chars@.subrange(second.0 as int, second.1 as int),
            ) == Some(c@),
            None => entry(
                chars@.subrange(first.0 as int, first.1 as int),
                chars@.subrange(second.0 as int, second.1 as int),
            ) is None,
        },
{
    let target_idx: usize = match parse_target(chars, first.0, first.1) {
        Some(index) => index,
        None => {
            return None;
        },
    };
    let abilities: u32 = match parse_cap(chars, first.0, first.1) {
        Some(cap) => cap,
        None => {
            return None;
        },
    };
    let reward = match parse_reward(chars, second.0, second.1) {
        Some(set) => set,
        None => {
            return None;
        },
    };
    let name = match field_bounds(chars, first.0, first.1, 0) {
        Some((start, end)) => {
            let (start, end) = trim_bounds(chars, start, end);
            text.substring_char(start, end).to_owned()
        },
        None => {
            return None;
        },
    };
    Some(Challenge { name, target_idx, abilities, reward })
}

/// The views of a list of challenges.
pub open spec fn views(challenges: Seq<Challenge>) -> Seq<ChallengeView> {
    Seq::new(challenges.len(), |k: int| challenges[k]@)
}

/// Parses a text that describes a list of challenges.
///
/// The result is the list that [`parsed`] gives, or nothing where some pair
/// of lines describes no challenge.
pub fn parse(text: &str) -> (challenges: Option<Vec<Challenge>>)
    ensures
        match challenges {
            Some(list) => parsed(text@) == Some(views(list@)),
            None => parsed(text@) is None,
        },
{
    let chars = chars_of(text);
    let bounds = line_bounds(&chars);
    let ghost all = lines(text@);
    let count: usize = bounds.len() / 2;
    let mut output: Vec<Challenge> = Vec::new();
    let mut k: usize = 0;
    while k < count
        invariant
            chars@ == text@,
            all == lines(text@),
            cut(chars@, bounds@) == all,
            count == bounds.len() / 2,
            forall|i: int|
                0 <= i < bounds.len() ==> (#[trigger] bounds[i]).0 <= bounds[i].1 <= chars.len(),
            k <= count,
            output.len() == k,
            forall|i: int|
                0 <= i < k ==> (#[trigger] entry(all[2 * i], all[2 * i + 1])) == Some(output[i]@),
        decreases count - k,
    {
        assert(all[2 * k] == chars@.subrange(bounds[2 * k].0 as int, bounds[2 * k].1 as int));
        assert(all[2 * k + 1] == chars@.subrange(
            bounds[2 * k + 1].0 as int,
            bounds[2 * k + 1].1 as int,
        ));
        match parse_entry(text, &chars, bounds[2 * k], bounds[2 * k + 1]) {
            Some(challenge) => {
                output.push(challenge);
            },
            None => {
                assert(entry(all[2 * k], all[2 * k + 1]) is None);
                return None;
            },
        }
        k += 1;
    }
    assert(views(output@) =~= Seq::new(
        count as nat,
        |k: int| entry(all[2 * k], all[2 * k + 1])->0,
    ));
    Some(output)
}

} // verus!
