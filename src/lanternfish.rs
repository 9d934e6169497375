// Lanternfish: a population of timers that reset and spawn, counted per timer value.
use vstd::prelude::*;

use crate::parse::{chars_of, decimal_in, decimals_of, piece_ranges, pieces};

verus! {

/// The number of timer values a fish can hold.
pub const MAX_LIFETIME: usize = 9;

/// How many entries of `l` equal `v`.
pub open spec fn count_of(l: Seq<usize>, v: int) -> nat
    decreases l.len(),
{
    if l.len() == 0 {
        0
    } else {
        count_of(l.drop_last(), v) + (if l.last() == v {
            1nat
        } else {
            0nat
        })
    }
}

/// The number of fish with each timer value, from a list of timers.
pub open spec fn census(l: Seq<usize>) -> Seq<int> {
    Seq::new(9, |i: int| count_of(l, i) as int)
}

/// One day: each fish at zero resets to six and spawns one at eight; the others count down.
pub open spec fn step(p: Seq<int>) -> Seq<int> {
    Seq::new(
        9,
        |i: int|
            (if i == 6 || i == 8 {
                p[0]
            } else {
                0
            }) + (if i < 8 {
                p[i + 1]
            } else {
                0
            }),
    )
}

/// The counts per timer value after `days` days.
pub open spec fn evolve(p: Seq<int>, days: int) -> Seq<int>
    decreases days,
{
    if days <= 0 {
        p
    } else {
        step(evolve(p, days - 1))
    }
}

pub open spec fn total(p: Seq<int>) -> int {
    p[0] + p[1] + p[2] + p[3] + p[4] + p[5] + p[6] + p[7] + p[8]
}

/// Every timer lies below nine.
pub open spec fn timers_valid(l: Seq<usize>) -> bool {
    forall|i: int| 0 <= i < l.len() ==> #[trigger] l[i] < 9
}

/// The number of fish after `days` days, when every timer is valid.
pub open spec fn population(l: Seq<usize>, days: int) -> Option<int> {
    if timers_valid(l) {
        Some(total(evolve(census(l), days)))
    } else {
        None
    }
}

pub open spec fn nonneg(p: Seq<int>) -> bool {
    p.len() == 9 && forall|i: int| 0 <= i < 9 ==> #[trigger] p[i] >= 0
}

proof fn lemma_evolve_grows(p: Seq<int>, d1: int, d2: int)
    requires
        nonneg(p),
        0 <= d1 <= d2,
    ensures
        nonneg(evolve(p, d2)),
        total(evolve(p, d1)) <= total(evolve(p, d2)),
        forall|i: int| 0 <= i < 9 ==> #[trigger] evolve(p, d2)[i] <= total(evolve(p, d2)),
    decreases d2,
{
    if d2 > 0 {
        if d1 == d2 {
            lemma_evolve_grows(p, d1 - 1, d2 - 1);
        } else {
            lemma_evolve_grows(p, d1, d2 - 1);
        }
    }
}

proof fn lemma_count_prefix(l: Seq<usize>, k: int)
    requires
        0 <= k < l.len(),
    ensures
        forall|v: int|
            #[trigger] count_of(l.take(k + 1), v) == count_of(l.take(k), v) + (if l[k] == v {
                1int
            } else {
                0int
            }),
{
    assert(l.take(k + 1).drop_last() =~= l.take(k));
}

proof fn lemma_count_bound(l: Seq<usize>, v: int)
    ensures
        count_of(l, v) <= l.len(),
    decreases l.len(),
{
    if l.len() > 0 {
        lemma_count_bound(l.drop_last(), v);
    }
}

/// Reads the comma-separated timers of `input`, skipping pieces that are not numbers.
pub fn parse_input(input: &str) -> (r: Vec<usize>)
    ensures
        r@.len() == decimals_of(pieces(input@, ','), usize::MAX as int).len(),
        forall|k: int|
            0 <= k < r@.len() ==> r@[k] as int == #[trigger] decimals_of(
                pieces(input@, ','),
                usize::MAX as int,
            )[k],
{
    let chars = chars_of(input);
    let ranges = piece_ranges(&chars, ',');
    let ghost ws = pieces(chars@, ',');
    let mut out: Vec<usize> = Vec::new();
    let mut k: usize = 0;
    assert(ws.take(0) =~= Seq::<Seq<char>>::empty());
    while k < ranges.len()
        invariant
            chars@ == input@,
            ws == pieces(chars@, ','),
            ranges@.len() == ws.len(),
            forall|j: int|
                0 <= j < ranges@.len() ==> (#[trigger] ranges@[j]).0 <= ranges@[j].1
                    <= chars@.len(),
            forall|j: int|
                0 <= j < ranges@.len() ==> chars@.subrange(ranges@[j].0 as int, ranges@[j].1 as int)
                    == #[trigger] ws[j],
            k <= ranges@.len(),
            out@.len() == decimals_of(ws.take(k as int), usize::MAX as int).len(),
            forall|j: int|
                0 <= j < out@.len() ==> out@[j] as int == #[trigger] decimals_of(
                    ws.take(k as int),
                    usize::MAX as int,
                )[j],
        decreases ranges@.len() - k,
    {
        let ghost prev = decimals_of(ws.take(k as int), usize::MAX as int);
        assert(ws.take(k + 1).drop_last() =~= ws.take(k as int));
        assert(ws.take(k + 1).last() == ws[k as int]);
        assert(forall|j: int|
            0 <= j < prev.len() ==> #[trigger] decimals_of(ws.take(k + 1), usize::MAX as int)[j]
                == prev[j]);
        let (a, b) = ranges[k];
        match decimal_in(&chars, a, b, usize::MAX as u64) {
            Some(v) => {
                out.push(v as usize);
            },
            None => {},
        }
        k = k + 1;
    }
    assert(ws.take(k as int) =~= ws);
    out
}

/// The number of fish after `days` days, starting from one fish per entry of `lifetimes`;
/// `None` when a timer is nine or more, or the count exceeds `u64::MAX`.
pub fn solve(lifetimes: &[usize], days: u32) -> (r: Option<u64>)
    ensures
        r is Some <==> (population(lifetimes@, days as int) matches Some(t) && t <= u64::MAX),
        r matches Some(v) ==> population(lifetimes@, days as int) == Some(v as int),
{
    let mut population: Vec<u64> = vec![0u64; MAX_LIFETIME];
    let mut k: usize = 0;
    while k < lifetimes.len()
        invariant
            k <= lifetimes@.len(),
            timers_valid(lifetimes@.take(k as int)),
            population@.len() == 9,
            forall|i: int|
                0 <= i < 9 ==> #[trigger] population@[i] as int == count_of(
                    lifetimes@.take(k as int),
                    i,
                ),
        decreases lifetimes@.len() - k,
    {
        proof {
            lemma_count_prefix(lifetimes@, k as int);
            lemma_count_bound(lifetimes@.take(k as int), lifetimes@[k as int] as int);
        }
        let lifetime = lifetimes[k];
        if lifetime >= MAX_LIFETIME {
            assert(!timers_valid(lifetimes@));
            return None;
        }
        let c = population[lifetime];
        population.set(lifetime, c + 1);
        k = k + 1;
    }
    assert(lifetimes@.take(k as int) =~= lifetimes@);
    let ghost start = census(lifetimes@);
    assert(nonneg(start));
    let mut day: u32 = 0;
    while day < days
        invariant
            day <= days,
            nonneg(start),
            timers_valid(lifetimes@),
            start == census(lifetimes@),
            population@.len() == 9,
            forall|i: int| 0 <= i < 9 ==> #[trigger] population@[i] as int == evolve(start, day as int)[i],
        decreases days - day,
    {
        proof {
            lemma_evolve_grows(start, day as int + 1, days as int);
            lemma_evolve_grows(start, day as int + 1, day as int + 1);
        }
        let ghost next_spec = evolve(start, day as int + 1);
        assert(next_spec == step(evolve(start, day as int)));
        let mut next_population: Vec<u64> = vec![0u64; MAX_LIFETIME];
        next_population.set(8, population[0]);
        next_population.set(6, population[0]);
        let mut i: usize = 0;
        while i < MAX_LIFETIME - 1
            invariant
                0 <= i <= 8,
                population@.len() == 9,
                next_population@.len() == 9,
                nonneg(start),
                timers_valid(lifetimes@),
                start == census(lifetimes@),
                next_spec == step(evolve(start, day as int)),
                next_spec == evolve(start, day as int + 1),
                total(next_spec) <= total(evolve(start, days as int)),
                forall|j: int| 0 <= j < 9 ==> #[trigger] next_spec[j] <= total(next_spec),
                forall|j: int| 0 <= j < 9 ==> #[trigger] population@[j] as int == evolve(start, day as int)[j],
                forall|j: int|
                    0 <= j < i ==> #[trigger] next_population@[j] as int == next_spec[j],
                forall|j: int|
                    i <= j < 9 ==> #[trigger] next_population@[j] as int == (if j == 6 || j == 8 {
                        population@[0] as int
                    } else {
                        0
                    }),
            decreases 8 - i,
        {
            match next_population[i].checked_add(population[i + 1]) {
                Some(v) => {
                    next_population.set(i, v);
                },
                None => {
                    assert(next_spec[i as int] > u64::MAX);
                    return None;
                },
            }
            i = i + 1;
        }
        population = next_population;
        day = day + 1;
    }
    let ghost last = evolve(start, days as int);
    proof {
        lemma_evolve_grows(start, days as int, days as int);
    }
    let mut sum: u64 = 0;
    let mut i: usize = 0;
    while i < MAX_LIFETIME
        invariant
            i <= 9,
            population@.len() == 9,
            timers_valid(lifetimes@),
            start == census(lifetimes@),
            last == evolve(start, days as int),
            nonneg(last),
            forall|j: int| 0 <= j < 9 ==> #[trigger] population@[j] as int == last[j],
            sum as int == partial(last, i as int),
        decreases 9 - i,
    {
        proof {
            lemma_partial(last, i as int + 1);
        }
        match sum.checked_add(population[i]) {
            Some(v) => {
                sum = v;
            },
            None => {
                return None;
            },
        }
        i = i + 1;
    }
    proof {
        lemma_partial(last, 9);
    }
    Some(sum)
}

/// The fish after eighty days; `None` as for [`solve`].
pub fn part_one(input: &str) -> (r: Option<u64>)
    ensures
        ({
            let l = decimals_of(pieces(input@, ','), usize::MAX as int);
            &&& r is Some <==> (population_of(l, 80) matches Some(t) && t <= u64::MAX)
            &&& r matches Some(v) ==> population_of(l, 80) == Some(v as int)
        }),
{
    let lifetimes = parse_input(input);
    let r = solve(lifetimes.as_slice(), 80);
    proof {
        lemma_population_of(lifetimes@, decimals_of(pieces(input@, ','), usize::MAX as int), 80);
    }
    r
}

/// The fish after two hundred fifty-six days; `None` as for [`solve`].
pub fn part_two(input: &str) -> (r: Option<u64>)
    ensures
        ({
            let l = decimals_of(pieces(input@, ','), usize::MAX as int);
            &&& r is Some <==> (population_of(l, 256) matches Some(t) && t <= u64::MAX)
            &&& r matches Some(v) ==> population_of(l, 256) == Some(v as int)
        }),
{
    let lifetimes = parse_input(input);
    let r = solve(lifetimes.as_slice(), 256);
    proof {
        lemma_population_of(lifetimes@, decimals_of(pieces(input@, ','), usize::MAX as int), 256);
    }
    r
}

/// `population` over timers given as integers.
pub open spec fn population_of(l: Seq<int>, days: int) -> Option<int> {
    population(l.map_values(|v: int| v as usize), days)
}

proof fn lemma_population_of(l: Seq<usize>, li: Seq<int>, days: int)
    requires
        l.len() == li.len(),
        forall|k: int| 0 <= k < l.len() ==> l[k] as int == #[trigger] li[k],
    ensures
        population(l, days) == population_of(li, days),
{
    assert(li.map_values(|v: int| v as usize) =~= l);
}

/// The sum of the first `n` entries of `p`.
pub open spec fn partial(p: Seq<int>, n: int) -> int
    decreases n,
{
    if n <= 0 {
        0
    } else {
        partial(p, n - 1) + p[n - 1]
    }
}

proof fn lemma_partial(p: Seq<int>, n: int)
    requires
        nonneg(p),
        0 <= n <= 9,
    ensures
        partial(p, n) <= total(p),
        partial(p, 9) == total(p),
    decreases 9 - n,
{
    reveal_with_fuel(partial, 10);
    if n < 9 {
        lemma_partial(p, n + 1);
    }
}

} // verus!
