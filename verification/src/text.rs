//! Text as a sequence of characters, and the few operations on it that the
//! format of a challenge list needs: lines, fields between tabs, trimming,
//! prefixes and decimal numbers.

use vstd::prelude::*;

verus! {

/// Whether `c` is white space: a character with the Unicode property
/// `White_Space`.
pub open spec fn is_whitespace(c: char) -> bool {
    let code = c as u32;
    ||| 0x09 <= code <= 0x0d
    ||| code == 0x20
    ||| code == 0x85
    ||| code == 0xa0
    ||| code == 0x1680
    ||| 0x2000 <= code <= 0x200a
    ||| code == 0x2028
    ||| code == 0x2029
    ||| code == 0x202f
    ||| code == 0x205f
    ||| code == 0x3000
}

/// The position of the first `c` in `s`, or the length of `s` where it holds
/// none.
pub open spec fn first_index(s: Seq<char>, c: char) -> int
    decreases s.len(),
{
    if s.len() == 0 || s[0] == c {
        0
    } else {
        1 + first_index(s.drop_first(), c)
    }
}

/// `first_index` is a position of `s` or its length.
pub proof fn lemma_first_index_bounds(s: Seq<char>, c: char)
    ensures
        0 <= first_index(s, c) <= s.len(),
    decreases s.len(),
{
    if s.len() > 0 && s[0] != c {
        lemma_first_index_bounds(s.drop_first(), c);
    }
}

/// `s` without the white space at its start.
pub open spec fn trim_start(s: Seq<char>) -> Seq<char>
    decreases s.len(),
{
    if s.len() > 0 && is_whitespace(s[0]) {
        trim_start(s.drop_first())
    } else {
        s
    }
}

/// `s` without the white space at its end.
pub open spec fn trim_end(s: Seq<char>) -> Seq<char>
    decreases s.len(),
{
    if s.len() > 0 && is_whitespace(s.last()) {
        trim_end(s.drop_last())
    } else {
        s
    }
}

/// `s` without the white space at its start and at its end.
pub open spec fn trim(s: Seq<char>) -> Seq<char> {
    trim_end(trim_start(s))
}

/// What follows `prefix` in `s`, where `s` starts with it.
pub open spec fn strip_prefix(s: Seq<char>, prefix: Seq<char>) -> Option<Seq<char>> {
    if prefix.is_prefix_of(s) {
        Some(s.skip(prefix.len() as int))
    } else {
        None
    }
}

/// A line without the carriage return that may stand before its line feed.
pub open spec fn strip_return(line: Seq<char>) -> Seq<char> {
    if line.len() > 0 && line.last() == '\r' {
        line.drop_last()
    } else {
        line
    }
}

/// The lines of `s`. A line ends with a line feed, or with a carriage return
/// and a line feed, neither of which belongs to the line; the last line may
/// end with the text, and then keeps a carriage return at its end.
pub open spec fn lines(s: Seq<char>) -> Seq<Seq<char>>
    decreases s.len(),
{
    if s.len() == 0 {
        Seq::empty()
    } else {
        let end = first_index(s, '\n');
        if end == s.len() {
            seq![s]
        } else {
            proof {
                lemma_first_index_bounds(s, '\n');
            }
            seq![strip_return(s.take(end))] + lines(s.skip(end + 1))
        }
    }
}

/// The field numbered `k`, counted from zero, among the fields that tabs
/// part `line` into.
pub open spec fn field(line: Seq<char>, k: nat) -> Option<Seq<char>>
    decreases k,
{
    let end = first_index(line, '\t');
    if k == 0 {
        Some(line.take(end))
    } else if end == line.len() {
        None
    } else {
        field(line.skip(end + 1), (k - 1) as nat)
    }
}

/// Whether `c` is a decimal digit.
pub open spec fn is_digit(c: char) -> bool {
    '0' <= c <= '9'
}

/// The number that the digits of `s` write in base ten.
pub open spec fn digits_value(s: Seq<char>) -> nat
    decreases s.len(),
{
    if s.len() == 0 {
        0
    } else {
        (digits_value(s.drop_last()) * 10 + (s.last() as u32 - '0' as u32)) as nat
    }
}

/// The number that `s` writes without a sign: one digit or more, and
/// nothing else.
pub open spec fn signless_number(s: Seq<char>) -> Option<nat> {
    if s.len() > 0 && (forall|i: int| 0 <= i < s.len() ==> is_digit(s[i])) {
        Some(digits_value(s))
    } else {
        None
    }
}

/// The number that `s` writes: an optional plus sign, then one digit or
/// more, and nothing else.
pub open spec fn number(s: Seq<char>) -> Option<nat> {
    if s.len() > 0 && s[0] == '+' {
        signless_number(s.skip(1))
    } else {
        signless_number(s)
    }
}

/// `first_index` is the one position before which no `c` stands and at
/// which one does, unless it is the length.
pub proof fn lemma_first_index(s: Seq<char>, c: char, i: int)
    requires
        0 <= i <= s.len(),
        forall|j: int| 0 <= j < i ==> s[j] != c,
        i < s.len() ==> s[i] == c,
    ensures
        first_index(s, c) == i,
    decreases i,
{
    if i > 0 {
        lemma_first_index(s.drop_first(), c, i - 1);
    }
}

/// White space before the first character that is none does not change
/// what `trim_start` leaves.
pub proof fn lemma_trim_start(s: Seq<char>, i: int)
    requires
        0 <= i <= s.len(),
        forall|j: int| 0 <= j < i ==> is_whitespace(s[j]),
        i < s.len() ==> !is_whitespace(s[i]),
    ensures
        trim_start(s) == s.skip(i),
    decreases i,
{
    if i > 0 {
        lemma_trim_start(s.drop_first(), i - 1);
        assert(s.drop_first().skip(i - 1) =~= s.skip(i));
    } else {
        assert(s.skip(0) =~= s);
    }
}

/// The same, from the end.
pub proof fn lemma_trim_end(s: Seq<char>, i: int)
    requires
        0 <= i <= s.len(),
        forall|j: int| i <= j < s.len() ==> is_whitespace(s[j]),
        i > 0 ==> !is_whitespace(s[i - 1]),
    ensures
        trim_end(s) == s.take(i),
    decreases s.len() - i,
{
    if i < s.len() {
        lemma_trim_end(s.drop_last(), i);
        assert(s.drop_last().take(i) =~= s.take(i));
    } else {
        assert(s.take(i) =~= s);
    }
}

/// A number does not shrink when a digit is written after it.
pub proof fn lemma_digits_value_grows(s: Seq<char>, n: int)
    requires
        0 <= n <= s.len(),
        forall|i: int| 0 <= i < s.len() ==> is_digit(s[i]),
    ensures
        digits_value(s.take(n)) <= digits_value(s),
    decreases s.len() - n,
{
    if n < s.len() {
        lemma_digits_value_grows(s.drop_last(), n);
        assert(s.drop_last().take(n) =~= s.take(n));
    } else {
        assert(s.take(n) =~= s);
    }
}

/// Returns the characters of `text`, in order.
pub fn chars_of(text: &str) -> (chars: Vec<char>)
    ensures
        chars@ == text@,
{
    let mut chars: Vec<char> = Vec::new();
    for c in it: text.chars()
        invariant
            it.seq() == text@,
            chars@ == it.seq().take(it.index() as int),
    {
        chars.push(c);
    }
    chars
}

/// Returns whether `c` is white space.
pub fn whitespace(c: char) -> (white: bool)
    ensures
        white == is_whitespace(c),
{
    let code: u32 = c as u32;
    (0x09 <= code && code <= 0x0d) || code == 0x20 || code == 0x85 || code == 0xa0 || code
        == 0x1680 || (0x2000 <= code && code <= 0x200a) || code == 0x2028 || code == 0x2029 || code
        == 0x202f || code == 0x205f || code == 0x3000
}

/// Returns the position of the first `c` at or after `from` and before
/// `to`, or `to` where none stands there.
pub fn find(chars: &Vec<char>, from: usize, to: usize, c: char) -> (at: usize)
    requires
        from <= to <= chars.len(),
    ensures
        from <= at <= to,
        at - from == first_index(chars@.subrange(from as int, to as int), c),
{
    let mut at: usize = from;
    while at < to && chars[at] != c
        invariant
            from <= at <= to <= chars.len(),
            forall|j: int| from <= j < at ==> chars[j] != c,
        decreases to - at,
    {
        at += 1;
    }
    proof {
        lemma_first_index(chars@.subrange(from as int, to as int), c, at - from);
    }
    at
}

/// Returns the bounds of what `trim` leaves of the characters from `from`
/// to `to`.
pub fn trim_bounds(chars: &Vec<char>, from: usize, to: usize) -> (bounds: (usize, usize))
    requires
        from <= to <= chars.len(),
    ensures
        from <= bounds.0 <= bounds.1 <= to,
        chars@.subrange(bounds.0 as int, bounds.1 as int) == trim(
            chars@.subrange(from as int, to as int),
        ),
{
    let mut start: usize = from;
    while start < to && whitespace(chars[start])
        invariant
            from <= start <= to <= chars.len(),
            forall|j: int| from <= j < start ==> is_whitespace(chars[j]),
        decreases to - start,
    {
        start += 1;
    }
    let mut end: usize = to;
    while start < end && whitespace(chars[end - 1])
        invariant
            start <= end <= to <= chars.len(),
            forall|j: int| end <= j < to ==> is_whitespace(chars[j]),
        decreases end - start,
    {
        end -= 1;
    }
    proof {
        let whole = chars@.subrange(from as int, to as int);
        lemma_trim_start(whole, start - from);
        assert(whole.skip(start - from) =~= chars@.subrange(start as int, to as int));
        let rest = chars@.subrange(start as int, to as int);
        lemma_trim_end(rest, end - start);
        assert(rest.take(end - start) =~= chars@.subrange(start as int, end as int));
    }
    (start, end)
}

/// Returns whether the characters from `from` to `to` start with `prefix`.
pub fn starts_with(chars: &Vec<char>, from: usize, to: usize, prefix: &Vec<char>) -> (found: bool)
    requires
        from <= to <= chars.len(),
    ensures
        found == prefix@.is_prefix_of(chars@.subrange(from as int, to as int)),
{
    let ghost whole = chars@.subrange(from as int, to as int);
    if prefix.len() > to - from {
        return false;
    }
    let mut i: usize = 0;
    while i < prefix.len()
        invariant
            from <= to <= chars.len(),
            i <= prefix.len() <= to - from,
            whole == chars@.subrange(from as int, to as int),
            forall|j: int| 0 <= j < i ==> prefix[j] == whole[j],
        decreases prefix.len() - i,
    {
        if prefix[i] != chars[from + i] {
            assert(prefix@[i as int] != whole.subrange(0, prefix.len() as int)[i as int]);
            return false;
        }
        i += 1;
    }
    assert(prefix@ =~= whole.subrange(0, prefix.len() as int));
    true
}

/// Returns whether the characters from `from` to `to` are those of `other`.
pub fn equals(chars: &Vec<char>, from: usize, to: usize, other: &Vec<char>) -> (same: bool)
    requires
        from <= to <= chars.len(),
    ensures
        same == (chars@.subrange(from as int, to as int) == other@),
{
    let ghost whole = chars@.subrange(from as int, to as int);
    if other.len() != to - from {
        return false;
    }
    let found = starts_with(chars, from, to, other);
    assert(whole.subrange(0, whole.len() as int) =~= whole);
    found
}

/// What `parse_number` owes for a text: its number, where it writes one
/// that a `u32` can hold.
pub open spec fn small_number(s: Seq<char>) -> Option<u32> {
    match number(s) {
        Some(value) => if value <= u32::MAX {
            Some(value as u32)
        } else {
            None
        },
        None => None,
    }
}

/// Returns the number that the characters from `from` to `to` write, where
/// they write one that a `u32` can hold.
pub fn parse_number(chars: &Vec<char>, from: usize, to: usize) -> (value: Option<u32>)
    requires
        from <= to <= chars.len(),
    ensures
        value == small_number(chars@.subrange(from as int, to as int)),
{
    let ghost whole = chars@.subrange(from as int, to as int);
    let mut at: usize = from;
    if at < to && chars[at] == '+' {
        at += 1;
    }
    let start: usize = at;
    let ghost digits = chars@.subrange(start as int, to as int);
    assert(digits =~= whole.skip(start - from));
    assert(whole.skip(0) =~= whole);
    assert(number(whole) == signless_number(digits));
    if at == to {
        return None;
    }
    let mut value: u32 = 0;
    while at < to
        invariant
            from <= start <= at <= to <= chars.len(),
            digits == chars@.subrange(start as int, to as int),
            number(chars@.subrange(from as int, to as int)) == signless_number(digits),
            forall|j: int| 0 <= j < at - start ==> is_digit(digits[j]),
            value == digits_value(digits.take(at - start)),
        decreases to - at,
    {
        let c: char = chars[at];
        if !('0' <= c && c <= '9') {
            assert(!is_digit(digits[at - start]));
            return None;
        }
        let digit: u32 = c as u32 - '0' as u32;
        let ghost longer = digits.take(at - start + 1);
        assert(longer.drop_last() =~= digits.take(at - start));
        assert(longer.last() == c);
        if value > (u32::MAX - digit) / 10 {
            proof {
                if signless_number(digits) is Some {
                    lemma_digits_value_grows(digits, at - start + 1);
                }
            }
            return None;
        }
        value = value * 10 + digit;
        at += 1;
    }
    assert(digits.take(at - start) =~= digits);
    Some(value)
}

/// Returns the bounds of the field numbered `k` among the fields that tabs
/// part the characters from `from` to `to` into.
pub fn field_bounds(chars: &Vec<char>, from: usize, to: usize, k: usize) -> (bounds: Option<
    (usize, usize),
>)
    requires
        from <= to <= chars.len(),
    ensures
        match bounds {
            Some((start, end)) => from <= start <= end <= to && field(
                chars@.subrange(from as int, to as int),
                k as nat,
            ) == Some(chars@.subrange(start as int, end as int)),
            None => field(chars@.subrange(from as int, to as int), k as nat) is None,
        },
{
    let mut start: usize = from;
    let mut left: usize = k;
    loop
        invariant
            from <= start <= to <= chars.len(),
            left <= k,
            field(chars@.subrange(from as int, to as int), k as nat) == field(
                chars@.subrange(start as int, to as int),
                left as nat,
            ),
        decreases left,
    {
        let ghost rest = chars@.subrange(start as int, to as int);
        let end: usize = find(chars, start, to, '\t');
        if left == 0 {
            assert(rest.take(end - start) =~= chars@.subrange(start as int, end as int));
            return Some((start, end));
        }
        if end == to {
            return None;
        }
        assert(rest.skip(end - start + 1) =~= chars@.subrange(end + 1, to as int));
        start = end + 1;
        left -= 1;
    }
}

/// The parts of `chars` that a list of bounds cuts out.
pub open spec fn cut(chars: Seq<char>, bounds: Seq<(usize, usize)>) -> Seq<Seq<char>> {
    Seq::new(bounds.len(), |k: int| chars.subrange(bounds[k].0 as int, bounds[k].1 as int))
}

/// Returns the bounds of the lines of `chars`.
pub fn line_bounds(chars: &Vec<char>) -> (bounds: Vec<(usize, usize)>)
    ensures
        forall|k: int|
            0 <= k < bounds.len() ==> (#[trigger] bounds[k]).0 <= bounds[k].1 <= chars.len(),
        cut(chars@, bounds@) == lines(chars@),
{
    let mut bounds: Vec<(usize, usize)> = Vec::new();
    let mut start: usize = 0;
    let len: usize = chars.len();
    assert(chars@.skip(0) =~= chars@);
    while start < len
        invariant
            start <= len == chars.len(),
            forall|k: int|
                0 <= k < bounds.len() ==> (#[trigger] bounds[k]).0 <= bounds[k].1 <= chars.len(),
            lines(chars@) == cut(chars@, bounds@) + lines(chars@.skip(start as int)),
        decreases len - start,
    {
        let ghost rest = chars@.skip(start as int);
        let ghost before = bounds@;
        assert(rest =~= chars@.subrange(start as int, len as int));
        let end: usize = find(chars, start, len, '\n');
        if end == len {
            bounds.push((start, len));
            assert(lines(rest) == seq![rest]);
            assert(chars@.skip(len as int).len() == 0);
            assert(cut(chars@, bounds@) =~= cut(chars@, before) + seq![rest]);
            assert(cut(chars@, bounds@) + lines(chars@.skip(len as int)) =~= cut(chars@, bounds@));
            start = len;
        } else {
            let ghost line = rest.take(end - start);
            assert(line =~= chars@.subrange(start as int, end as int));
            assert(rest.skip(end - start + 1) =~= chars@.skip(end + 1));
            if end > start && chars[end - 1] == '\r' {
                bounds.push((start, end - 1));
                assert(line.drop_last() =~= chars@.subrange(start as int, end - 1));
            } else {
                bounds.push((start, end));
            }
            assert(cut(chars@, bounds@) =~= cut(chars@, before) + seq![strip_return(line)]);
            assert(lines(rest) == seq![strip_return(line)] + lines(chars@.skip(end + 1)));
            assert(cut(chars@, before) + (seq![strip_return(line)] + lines(chars@.skip(end + 1)))
                =~= cut(chars@, bounds@) + lines(chars@.skip(end + 1)));
            start = end + 1;
        }
    }
    assert(lines(chars@.skip(start as int)) =~= Seq::<Seq<char>>::empty());
    assert(cut(chars@, bounds@) + Seq::<Seq<char>>::empty() =~= cut(chars@, bounds@));
    bounds
}

} // verus!
