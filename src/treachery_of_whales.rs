// The treachery of whales: the cheapest position for crabs to align on, for two fuel costs.
use itertools::Itertools;
use vstd::prelude::*;

use crate::parse::{chars_of, decimal_in, decimals_of, piece_ranges, pieces};

verus! {

/// `v` is the smallest and `w` the largest entry of `s`.
pub open spec fn min_max_of(s: Seq<u32>, v: u32, w: u32) -> bool {
    &&& s.contains(v) && s.contains(w)
    &&& forall|i: int| 0 <= i < s.len() ==> v <= #[trigger] s[i] <= w
}

/// Relies on itertools' `minmax` and `MinMaxResult::into_option`: the smallest and largest
/// item, `None` for no items.
#[verifier::external_body]
fn min_max(v: &[u32]) -> (r: Option<(u32, u32)>)
    ensures
        r is None <==> v@.len() == 0,
        r matches Some(p) ==> min_max_of(v@, p.0, p.1),
{
    v.iter().cloned().minmax().into_option()
}

/// The distance between `a` and `b`.
pub open spec fn dist(a: int, b: int) -> int {
    if a <= b {
        b - a
    } else {
        a - b
    }
}

/// The fuel to bring the first `n` crabs of `ps` to `dest`, each step of distance `d`
/// costing `cost(d)`; `None` once a cost is `None` or the sum exceeds `u32::MAX`.
pub open spec fn fuel(ps: Seq<u32>, dest: int, cost: spec_fn(int) -> Option<int>, n: int) -> Option<
    int,
>
    decreases n,
{
    if n <= 0 {
        Some(0)
    } else {
        match (fuel(ps, dest, cost, n - 1), cost(dist(ps[n - 1] as int, dest))) {
            (Some(a), Some(c)) => if a + c <= u32::MAX {
                Some(a + c)
            } else {
                None
            },
            _ => None,
        }
    }
}

/// Every destination below `span` has a fuel total.
pub open spec fn all_fuel(ps: Seq<u32>, cost: spec_fn(int) -> Option<int>, span: int) -> bool {
    forall|d: int| 0 <= d < span ==> #[trigger] fuel(ps, d, cost, ps.len() as int) is Some
}

/// The least fuel total over the destinations below `n`.
pub open spec fn least_fuel(ps: Seq<u32>, cost: spec_fn(int) -> Option<int>, n: int) -> int
    decreases n,
{
    if n <= 1 {
        fuel(ps, 0, cost, ps.len() as int).unwrap()
    } else {
        let a = least_fuel(ps, cost, n - 1);
        let b = fuel(ps, n - 1, cost, ps.len() as int).unwrap();
        if b < a {
            b
        } else {
            a
        }
    }
}

/// The crab answer: destinations `0` up to the spread between the largest and smallest
/// position (excluded), the least fuel among them; `None` when there are no crabs, the
/// spread is zero, or a fuel total is `None`.
pub open spec fn crab_answer(ps: Seq<u32>, cost: spec_fn(int) -> Option<int>) -> Option<int> {
    if ps.len() == 0 {
        None
    } else {
        let span = (choose|p: (u32, u32)| min_max_of(ps, p.0, p.1)).1 - (choose|p: (u32, u32)|
            min_max_of(ps, p.0, p.1)).0;
        if span > 0 && all_fuel(ps, cost, span) {
            Some(least_fuel(ps, cost, span))
        } else {
            None
        }
    }
}

/// One unit of fuel per step.
pub open spec fn linear(d: int) -> Option<int> {
    if 0 <= d <= u32::MAX {
        Some(d)
    } else {
        None
    }
}

/// `1 + 2 + ... + d` fuel, when `d + d * d` fits in `u32`.
pub open spec fn triangular(d: int) -> Option<int> {
    if 0 <= d && d * d <= u32::MAX && d + d * d <= u32::MAX {
        Some((d + d * d) / 2)
    } else {
        None
    }
}

/// The fuel of `dist` steps at one unit each.
pub fn simple_cost(dist: u32) -> (r: Option<u32>)
    ensures
        r matches Some(v) ==> linear(dist as int) == Some(v as int),
        r is None ==> linear(dist as int) is None,
{
    Some(dist)
}

/// The fuel of `dist` steps, each costing one more than the last; `None` when `dist * dist`
/// or `dist + dist * dist` exceeds `u32::MAX`.
pub fn complex_cost(dist: u32) -> (r: Option<u32>)
    ensures
        r matches Some(v) ==> triangular(dist as int) == Some(v as int),
        r is None ==> triangular(dist as int) is None,
{
    match dist.checked_mul(dist) {
        Some(sq) => match dist.checked_add(sq) {
            Some(s) => Some(s / 2),
            None => None,
        },
        None => None,
    }
}

/// Reads the comma-separated positions, skipping pieces that are not `u32`s.
pub fn parse_input(input: &str) -> (r: Vec<u32>)
    ensures
        r@.map_values(|v: u32| v as int) == decimals_of(pieces(input@, ','), u32::MAX as int),
{
    let chars = chars_of(input);
    let ranges = piece_ranges(&chars, ',');
    let ghost ws = pieces(chars@, ',');
    let mut out: Vec<u32> = Vec::new();
    let mut k: usize = 0;
    assert(ws.take(0) =~= Seq::<Seq<char>>::empty());
    assert(out@.map_values(|v: u32| v as int) =~= decimals_of(ws.take(0), u32::MAX as int));
    while k < ranges.len()
        invariant
            chars@ == input@,
            ws == pieces(chars@, ','),
            ranges@.len() == ws.len(),
            forall|j: int|
                0 <= j < ranges@.len() ==> (#[trigger] ranges@[j]).0 <= ranges@[j].1
                    <= chars@.len(),
            forall|j: int|
                0 <= j < ranges@.len() ==> chars@.subrange(ranges@[j].0 as int, ranges@[j].1 as int)
                    == #[trigger] ws[j],
            k <= ranges@.len(),
            out@.map_values(|v: u32| v as int) == decimals_of(ws.take(k as int), u32::MAX as int),
        decreases ranges@.len() - k,
    {
        let ghost prev = decimals_of(ws.take(k as int), u32::MAX as int);
        let ghost before = out@;
        assert(ws.take(k + 1).drop_last() =~= ws.take(k as int));
        assert(ws.take(k + 1).last() == ws[k as int]);
        let (a, b) = ranges[k];
        match decimal_in(&chars, a, b, u32::MAX as u64) {
            Some(v) => {
                out.push(v as u32);
                assert(out@.map_values(|v: u32| v as int) =~= before.map_values(|v: u32| v as int).push(
                    v as int,
                ));
            },
            None => {},
        }
        k = k + 1;
    }
    assert(ws.take(k as int) =~= ws);
    out
}

proof fn lemma_fuel_prefix(ps: Seq<u32>, dest: int, cost: spec_fn(int) -> Option<int>, k: int, n: int)
    requires
        0 <= k <= n,
        fuel(ps, dest, cost, k) is None,
    ensures
        fuel(ps, dest, cost, n) is None,
    decreases n - k,
{
    if k < n {
        lemma_fuel_prefix(ps, dest, cost, k, n - 1);
    }
}

/// The least fuel for the crabs at `positions` to align on one of the destinations `0`
/// up to the spread of the positions, each step of distance `d` costing `fuel_cost(d)`;
/// `None` when there are no crabs, the spread is zero, or a cost or total is `None`.
fn solve(
    positions: &[u32],
    fuel_cost: impl Fn(u32) -> Option<u32>,
    Ghost(cost): Ghost<spec_fn(int) -> Option<int>>,
) -> (r: Option<u32>)
    requires
        forall|d: u32| call_requires(fuel_cost, (d,)),
        forall|d: u32, o: Option<u32>|
            call_ensures(fuel_cost, (d,), o) ==> (o matches Some(v) ==> cost(d as int) == Some(
                v as int,
            )) && (o is None ==> cost(d as int) is None),
    ensures
        r matches Some(v) ==> crab_answer(positions@, cost) == Some(v as int),
        r is None ==> crab_answer(positions@, cost) is None,
{
    let ghost ps = positions@;
    let (min, max) = match min_max(positions) {
        Some(p) => p,
        None => {
            return None;
        },
    };
    let ghost chosen = choose|p: (u32, u32)| min_max_of(ps, p.0, p.1);
    proof {
        assert(min_max_of(ps, min, max));
        lemma_min_max_unique(ps, min, max, chosen.0, chosen.1);
    }
    let span = max - min;
    let mut best: Option<u32> = None;
    let mut dest: u32 = 0;
    while dest < span
        invariant
            ps == positions@,
            ps.len() > 0,
            span == chosen.1 - chosen.0,
            min_max_of(ps, chosen.0, chosen.1),
            forall|d: u32| call_requires(fuel_cost, (d,)),
            forall|d: u32, o: Option<u32>|
                call_ensures(fuel_cost, (d,), o) ==> (o matches Some(v) ==> cost(d as int) == Some(
                    v as int,
                )) && (o is None ==> cost(d as int) is None),
            dest <= span,
            all_fuel(ps, cost, dest as int),
            dest == 0 ==> best is None,
            dest > 0 ==> best == Some(least_fuel(ps, cost, dest as int) as u32) && 0 <= least_fuel(
                ps,
                cost,
                dest as int,
            ) <= u32::MAX,
        decreases span - dest,
    {
        let mut total: u32 = 0;
        let mut k: usize = 0;
        while k < positions.len()
            invariant
                ps == positions@,
                ps.len() > 0,
                span == chosen.1 - chosen.0,
                min_max_of(ps, chosen.0, chosen.1),
                dest < span,
                all_fuel(ps, cost, dest as int),
                dest == 0 ==> best is None,
                dest > 0 ==> best == Some(least_fuel(ps, cost, dest as int) as u32) && 0 <= least_fuel(
                    ps,
                    cost,
                    dest as int,
                ) <= u32::MAX,
                forall|d: u32| call_requires(fuel_cost, (d,)),
                forall|d: u32, o: Option<u32>|
                    call_ensures(fuel_cost, (d,), o) ==> (o matches Some(v) ==> cost(d as int)
                        == Some(v as int)) && (o is None ==> cost(d as int) is None),
                k <= ps.len(),
                fuel(ps, dest as int, cost, k as int) == Some(total as int),
            decreases ps.len() - k,
        {
            let p = positions[k];
            let d = if p >= dest {
                p - dest
            } else {
                dest - p
            };
            assert(d as int == dist(ps[k as int] as int, dest as int));
            let c = match fuel_cost(d) {
                Some(c) => c,
                None => {
                    proof {
                        lemma_fuel_prefix(ps, dest as int, cost, k + 1, ps.len() as int);
                    }
                    return None;
                },
            };
            total = match total.checked_add(c) {
                Some(t) => t,
                None => {
                    proof {
                        lemma_fuel_prefix(ps, dest as int, cost, k + 1, ps.len() as int);
                    }
                    return None;
                },
            };
            k = k + 1;
        }
        assert(all_fuel(ps, cost, dest + 1)) by {
            assert forall|d: int| 0 <= d < dest + 1 implies #[trigger] fuel(ps, d, cost, ps.len() as int) is Some by {
                if d < dest {
                    assert(fuel(ps, d, cost, ps.len() as int) is Some);
                }
            }
        }
        best = match best {
            Some(b) => if total < b {
                Some(total)
            } else {
                Some(b)
            },
            None => Some(total),
        };
        dest = dest + 1;
    }
    best
}

proof fn lemma_min_max_unique(s: Seq<u32>, a: u32, b: u32, c: u32, d: u32)
    requires
        min_max_of(s, a, b),
        min_max_of(s, c, d),
    ensures
        a == c && b == d,
{
    let i = choose|i: int| 0 <= i < s.len() && s[i] == a;
    let j = choose|j: int| 0 <= j < s.len() && s[j] == c;
    let k = choose|k: int| 0 <= k < s.len() && s[k] == b;
    let l = choose|l: int| 0 <= l < s.len() && s[l] == d;
    assert(c <= s[i] && a <= s[j]);
    assert(s[k] <= d && s[l] <= b);
}

/// The least fuel at one unit per step; `None` as for the solver.
pub fn part_one(input: &str) -> (r: Option<u32>)
    ensures
        ({
            let ps = decimals_of(pieces(input@, ','), u32::MAX as int).map_values(|v: int| v as u32);
            &&& r matches Some(v) ==> crab_answer(ps, |d: int| linear(d)) == Some(v as int)
            &&& r is None ==> crab_answer(ps, |d: int| linear(d)) is None
        }),
{
    let positions = parse_input(input);
    proof {
        lemma_positions(positions@, decimals_of(pieces(input@, ','), u32::MAX as int));
    }
    solve(positions.as_slice(), simple_cost, Ghost(|d: int| linear(d)))
}

/// The least fuel with each step costing one more than the last; `None` as for the solver.
pub fn part_two(input: &str) -> (r: Option<u32>)
    ensures
        ({
            let ps = decimals_of(pieces(input@, ','), u32::MAX as int).map_values(|v: int| v as u32);
            &&& r matches Some(v) ==> crab_answer(ps, |d: int| triangular(d)) == Some(v as int)
            &&& r is None ==> crab_answer(ps, |d: int| triangular(d)) is None
        }),
{
    let positions = parse_input(input);
    proof {
        lemma_positions(positions@, decimals_of(pieces(input@, ','), u32::MAX as int));
    }
    solve(positions.as_slice(), complex_cost, Ghost(|d: int| triangular(d)))
}

proof fn lemma_positions(p: Seq<u32>, ints: Seq<int>)
    requires
        p.map_values(|v: u32| v as int) == ints,
    ensures
        ints.map_values(|v: int| v as u32) == p,
{
    assert(ints.map_values(|v: int| v as u32) =~= p) by {
        assert forall|i: int| 0 <= i < p.len() implies ints.map_values(|v: int| v as u32)[i]
            == p[i] by {
            assert(ints[i] == p[i] as int);
        }
    }
}

} // verus!
