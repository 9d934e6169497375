// Sonar sweep: counting depth increases, singly and over sliding windows of three.
use itertools::Itertools;
use vstd::prelude::*;

use crate::parse::{chars_of, decimal, decimal_in, line_ranges, lines};

verus! {

/// The depth each line of a report spells, when every line is a `u32` in decimal.
pub open spec fn depths(ls: Seq<Seq<char>>) -> Option<Seq<int>>
    decreases ls.len(),
{
    if ls.len() == 0 {
        Some(Seq::empty())
    } else {
        match (depths(ls.drop_last()), decimal(ls.last(), u32::MAX as int)) {
            (Some(v), Some(x)) => Some(v.push(x)),
            _ => None,
        }
    }
}

/// How many entries of `s` are larger than the entry before them.
pub open spec fn rises(s: Seq<int>) -> nat
    decreases s.len(),
{
    if s.len() < 2 {
        0
    } else {
        rises(s.drop_last()) + (if s[s.len() - 2] < s[s.len() - 1] {
            1nat
        } else {
            0nat
        })
    }
}

/// The sums of each three consecutive entries of `s`.
pub open spec fn triple_sums(s: Seq<int>) -> Seq<int> {
    Seq::new(
        if s.len() >= 3 {
            (s.len() - 2) as nat
        } else {
            0
        },
        |i: int| s[i] + s[i + 1] + s[i + 2],
    )
}

/// Relies on itertools' `tuple_windows`: each two consecutive items, in order.
#[verifier::external_body]
fn pair_windows(v: &Vec<u32>) -> (r: Vec<(u32, u32)>)
    ensures
        r@.len() == (if v@.len() >= 2 {
            v@.len() - 1
        } else {
            0
        }),
        forall|i: int| 0 <= i < r@.len() ==> #[trigger] r@[i] == (v@[i], v@[i + 1]),
{
    v.iter().copied().tuple_windows().collect()
}

/// Relies on itertools' `tuple_windows`: each four consecutive items, in order.
#[verifier::external_body]
fn quad_windows(v: &Vec<u32>) -> (r: Vec<(u32, u32, u32, u32)>)
    ensures
        r@.len() == (if v@.len() >= 4 {
            v@.len() - 3
        } else {
            0
        }),
        forall|i: int|
            0 <= i < r@.len() ==> #[trigger] r@[i] == (v@[i], v@[i + 1], v@[i + 2], v@[i + 3]),
{
    v.iter().copied().tuple_windows().collect()
}

/// Reads one line, `chars[range.0..range.1]`, as a depth.
fn parse_input_line(chars: &Vec<char>, range: (usize, usize)) -> (r: Option<u32>)
    requires
        range.0 <= range.1 <= chars@.len(),
    ensures
        r matches Some(v) ==> decimal(chars@.subrange(range.0 as int, range.1 as int), u32::MAX as int)
            == Some(v as int),
        r is None ==> decimal(chars@.subrange(range.0 as int, range.1 as int), u32::MAX as int) is None,
{
    match decimal_in(chars, range.0, range.1, u32::MAX as u64) {
        Some(v) => Some(v as u32),
        None => None,
    }
}

/// Reads a report of one depth per line; `None` when a line is not a `u32`.
pub fn parse_input(input: &str) -> (r: Option<Vec<u32>>)
    ensures
        r is Some <==> depths(lines(input@)) is Some,
        r matches Some(v) ==> v@.len() == depths(lines(input@)).unwrap().len() && forall|i: int|
            0 <= i < v@.len() ==> v@[i] as int == #[trigger] depths(lines(input@)).unwrap()[i],
{
    let chars = chars_of(input);
    let ranges = line_ranges(&chars);
    let ghost ls = lines(chars@);
    let mut out: Vec<u32> = Vec::new();
    let mut k: usize = 0;
    assert(ls.take(0) =~= Seq::<Seq<char>>::empty());
    while k < ranges.len()
        invariant
            chars@ == input@,
            ls == lines(chars@),
            ranges@.len() == ls.len(),
            forall|j: int|
                0 <= j < ranges@.len() ==> (#[trigger] ranges@[j]).0 <= ranges@[j].1
                    <= chars@.len(),
            forall|j: int|
                0 <= j < ranges@.len() ==> chars@.subrange(ranges@[j].0 as int, ranges@[j].1 as int)
                    == #[trigger] ls[j],
            k <= ranges@.len(),
            depths(ls.take(k as int)) is Some,
            out@.len() == depths(ls.take(k as int)).unwrap().len(),
            forall|j: int|
                0 <= j < out@.len() ==> out@[j] as int == #[trigger] depths(
                    ls.take(k as int),
                ).unwrap()[j],
        decreases ranges@.len() - k,
    {
        assert(ls.take(k + 1).drop_last() =~= ls.take(k as int));
        assert(ls.take(k + 1).last() == ls[k as int]);
        match parse_input_line(&chars, ranges[k]) {
            Some(v) => {
                out.push(v);
            },
            None => {
                proof {
                    lemma_depths_prefix(ls, k as int + 1);
                }
                return None;
            },
        }
        k = k + 1;
    }
    assert(ls.take(k as int) =~= ls);
    Some(out)
}

proof fn lemma_depths_prefix(ls: Seq<Seq<char>>, k: int)
    requires
        0 <= k <= ls.len(),
        depths(ls.take(k)) is None,
    ensures
        depths(ls) is None,
    decreases ls.len() - k,
{
    if k < ls.len() {
        assert(ls.take(k + 1).drop_last() =~= ls.take(k));
        lemma_depths_prefix(ls, k + 1);
    } else {
        assert(ls.take(k) =~= ls);
    }
}

/// How many depths of the report are larger than the one before; `None` when a line is not a
/// `u32`.
pub fn part_one(input: &str) -> (r: Option<usize>)
    ensures
        r is Some <==> depths(lines(input@)) is Some,
        r matches Some(n) ==> n == rises(depths(lines(input@)).unwrap()),
{
    let values = match parse_input(input) {
        Some(v) => v,
        None => {
            return None;
        },
    };
    let ghost d = values@.map_values(|x: u32| x as int);
    assert(d =~= depths(lines(input@)).unwrap());
    let pairs = pair_windows(&values);
    if values.len() >= 2 {
        assert(rises(d.take(1)) == 0);
    }
    let mut result: usize = 0;
    let mut k: usize = 0;
    while k < pairs.len()
        invariant
            d == values@.map_values(|x: u32| x as int),
            pairs@.len() == (if values@.len() >= 2 {
                values@.len() - 1
            } else {
                0
            }),
            forall|i: int| 0 <= i < pairs@.len() ==> #[trigger] pairs@[i] == (values@[i], values@[i + 1]),
            k <= pairs@.len(),
            result <= k,
            values@.len() >= 2 ==> result == rises(d.take(k as int + 1)),
            values@.len() < 2 ==> result == 0,
        decreases pairs@.len() - k,
    {
        let (a, b) = pairs[k];
        assert(d.take(k + 2).drop_last() =~= d.take(k + 1));
        if a < b {
            result = result + 1;
        }
        k = k + 1;
    }
    if values.len() >= 2 {
        assert(d.take(k as int + 1) =~= d);
    } else {
        assert(rises(d) == 0);
    }
    Some(result)
}

/// How many sums of three consecutive depths are larger than the sum before; `None` when a
/// line is not a `u32`.
pub fn part_two(input: &str) -> (r: Option<usize>)
    ensures
        r is Some <==> depths(lines(input@)) is Some,
        r matches Some(n) ==> n == rises(triple_sums(depths(lines(input@)).unwrap())),
{
    let values = match parse_input(input) {
        Some(v) => v,
        None => {
            return None;
        },
    };
    let ghost d = values@.map_values(|x: u32| x as int);
    assert(d =~= depths(lines(input@)).unwrap());
    let ghost t = triple_sums(d);
    let quads = quad_windows(&values);
    if values.len() >= 4 {
        assert(rises(t.take(1)) == 0);
    }
    let mut result: usize = 0;
    let mut k: usize = 0;
    while k < quads.len()
        invariant
            d == values@.map_values(|x: u32| x as int),
            t == triple_sums(d),
            quads@.len() == (if values@.len() >= 4 {
                values@.len() - 3
            } else {
                0
            }),
            forall|i: int|
                0 <= i < quads@.len() ==> #[trigger] quads@[i] == (
                    values@[i],
                    values@[i + 1],
                    values@[i + 2],
                    values@[i + 3],
                ),
            k <= quads@.len(),
            result <= k,
            values@.len() >= 4 ==> result == rises(t.take(k as int + 1)),
            values@.len() < 4 ==> result == 0,
        decreases quads@.len() - k,
    {
        let (a, b, c, e) = quads[k];
        assert(t.take(k + 2).drop_last() =~= t.take(k + 1));
        if (a as u64 + b as u64 + c as u64) < (b as u64 + c as u64 + e as u64) {
            result = result + 1;
        }
        k = k + 1;
    }
    if values.len() >= 4 {
        assert(t.take(k as int + 1) =~= t);
    } else {
        assert(rises(t) == 0);
    }
    Some(result)
}

} // verus!
