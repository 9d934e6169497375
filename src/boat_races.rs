// Boat races: counting the charge times that beat each record.
use vstd::prelude::*;

use crate::parse::{chars_of, decimal_list, decimals_of, line_ranges, lines, sub_chars, words};

verus! {

/// A race: its duration and the record distance.
#[derive(Clone, Copy, Debug, PartialEq, Eq, Structural)]
pub struct Race {
    pub time: u64,
    pub dist: u64,
}

pub open spec fn time_word() -> Seq<char> {
    seq!['T', 'i', 'm', 'e', ':']
}

pub open spec fn distance_word() -> Seq<char> {
    seq!['D', 'i', 's', 't', 'a', 'n', 'c', 'e', ':']
}

pub open spec fn starts_with(s: Seq<char>, p: Seq<char>) -> bool {
    s.len() >= p.len() && s.take(p.len() as int) == p
}

/// The races of a sheet: a `Time:` line and a `Distance:` line of numbers, paired in order.
pub open spec fn races_of(ls: Seq<Seq<char>>) -> Option<Seq<Race>> {
    if ls.len() < 2 || !starts_with(ls[0], time_word()) || !starts_with(ls[1], distance_word()) {
        None
    } else {
        let ts = decimals_of(words(ls[0].skip(5)), u64::MAX as int);
        let ds = decimals_of(words(ls[1].skip(9)), u64::MAX as int);
        let n = if ts.len() <= ds.len() {
            ts.len()
        } else {
            ds.len()
        };
        Some(Seq::new(n, |i: int| Race { time: ts[i] as u64, dist: ds[i] as u64 }))
    }
}

/// How many charge times below `n` beat the record `dist` in a race of `time`.
pub open spec fn wins_below(time: int, dist: int, n: int) -> nat
    decreases n,
{
    if n <= 0 {
        0
    } else {
        wins_below(time, dist, n - 1) + (if dist < (n - 1) * (time - (n - 1)) {
            1nat
        } else {
            0nat
        })
    }
}

/// Every distance for a charge time below `n` fits in `u64`.
pub open spec fn distances_fit(time: int, n: int) -> bool {
    forall|i: int| 0 <= i < n ==> #[trigger] (i * (time - i)) <= u64::MAX
}

/// The number of winning charge times of `r`, when every distance fits in `u64`.
pub open spec fn ways(r: Race) -> Option<int> {
    if distances_fit(r.time as int, r.time + 1) {
        Some(wins_below(r.time as int, r.dist as int, r.time + 1) as int)
    } else {
        None
    }
}

/// The product of the ways of `rs`, taken left to right; `None` once a factor or a partial
/// product is `None` or exceeds `u64::MAX`.
pub open spec fn ways_product(rs: Seq<Race>) -> Option<int>
    decreases rs.len(),
{
    if rs.len() == 0 {
        Some(1)
    } else {
        match (ways_product(rs.drop_last()), ways(rs.last())) {
            (Some(p), Some(w)) => if p * w <= u64::MAX {
                Some(p * w)
            } else {
                None
            },
            _ => None,
        }
    }
}

/// The smallest `m` times a power of ten that is at least `x`; `None` when a step exceeds
/// `u64::MAX`.
pub open spec fn grow(m: int, x: int) -> Option<int>
    decreases if m < x {
        x - m
    } else {
        0
    },
{
    if m <= 0 {
        None
    } else if m >= x {
        Some(m)
    } else if m * 10 > u64::MAX {
        None
    } else {
        grow(m * 10, x)
    }
}

/// Merges `rs` from the last race to the first: each race's time and distance are added
/// times a multiplier, and each multiplier grows by tens to reach the total so far.
pub open spec fn merge(rs: Seq<Race>) -> Option<(int, int, int, int)>
    decreases rs.len(),
{
    if rs.len() == 0 {
        Some((0, 0, 1, 1))
    } else {
        match merge(rs.drop_first()) {
            None => None,
            Some((t, d, mt, md)) => {
                let t2 = t + rs[0].time * mt;
                let d2 = d + rs[0].dist * md;
                if rs[0].time * mt > u64::MAX || t2 > u64::MAX || rs[0].dist * md > u64::MAX || d2
                    > u64::MAX {
                    None
                } else {
                    match (grow(mt, t2), grow(md, d2)) {
                        (Some(mt2), Some(md2)) => Some((t2, d2, mt2, md2)),
                        _ => None,
                    }
                }
            },
        }
    }
}

/// The distance a boat travels when charged for `charge_time` in a race of `total_time`;
/// `None` when it exceeds `u64::MAX`.
pub fn calculate_dist(charge_time: u64, total_time: u64) -> (r: Option<u64>)
    requires
        charge_time <= total_time,
    ensures
        r is Some <==> charge_time * (total_time - charge_time) <= u64::MAX,
        r matches Some(v) ==> v == charge_time * (total_time - charge_time),
{
    charge_time.checked_mul(total_time - charge_time)
}

/// The number of charge times that beat the record of `race`; `None` when a distance
/// exceeds `u64::MAX`.
pub fn solve(race: &Race) -> (r: Option<u64>)
    ensures
        r is Some <==> ways(*race) is Some,
        r matches Some(v) ==> ways(*race) == Some(v as int),
{
    let mut result: u64 = 0;
    let mut i: u64 = 0;
    loop
        invariant_except_break
            result == wins_below(race.time as int, race.dist as int, i as int),
            i > 0 ==> result < i,
            i == 0 ==> result == 0,
            distances_fit(race.time as int, i as int),
        invariant
            i <= race.time,
        ensures
            result == wins_below(race.time as int, race.dist as int, race.time + 1),
            distances_fit(race.time as int, race.time + 1),
        decreases race.time - i,
    {
        match calculate_dist(i, race.time) {
            Some(d) => {
                if race.dist < d {
                    result = result + 1;
                }
            },
            None => {
                assert(!distances_fit(race.time as int, race.time + 1)) by {
                    assert(i * (race.time - i) > u64::MAX);
                }
                return None;
            },
        }
        if i == race.time {
            break ;
        }
        i = i + 1;
    }
    Some(result)
}

proof fn lemma_grow_step(m: int, x: int)
    requires
        m >= 1,
        m < x,
        m * 10 <= u64::MAX,
    ensures
        grow(m, x) == grow(m * 10, x),
{
}

/// Merges the races into one by putting their digits side by side.
pub fn merge_races(races: &[Race]) -> (r: Option<Race>)
    ensures
        r is Some <==> merge(races@) is Some,
        r matches Some(m) ==> m.time == merge(races@).unwrap().0 && m.dist == merge(
            races@,
        ).unwrap().1,
{
    let mut merged = Race { time: 0, dist: 0 };
    let mut mult_time: u64 = 1;
    let mut mult_dist: u64 = 1;
    let mut k: usize = races.len();
    assert(races@.subrange(k as int, races@.len() as int) =~= Seq::<Race>::empty());
    while k > 0
        invariant
            k <= races@.len(),
            mult_time >= 1,
            mult_dist >= 1,
            merge(races@.subrange(k as int, races@.len() as int)) == Some(
                (merged.time as int, merged.dist as int, mult_time as int, mult_dist as int),
            ),
        decreases k,
    {
        let ghost rest = races@.subrange(k as int, races@.len() as int);
        let ghost here = races@.subrange(k - 1, races@.len() as int);
        assert(here.drop_first() =~= rest);
        let race = races[k - 1];
        let t = match race.time.checked_mul(mult_time) {
            Some(p) => match merged.time.checked_add(p) {
                Some(t) => t,
                None => {
                    proof {
                        lemma_merge_prefix(races@, k - 1);
                    }
                    return None;
                },
            },
            None => {
                proof {
                    lemma_merge_prefix(races@, k - 1);
                }
                return None;
            },
        };
        let d = match race.dist.checked_mul(mult_dist) {
            Some(p) => match merged.dist.checked_add(p) {
                Some(d) => d,
                None => {
                    proof {
                        lemma_merge_prefix(races@, k - 1);
                    }
                    return None;
                },
            },
            None => {
                proof {
                    lemma_merge_prefix(races@, k - 1);
                }
                return None;
            },
        };
        merged.time = t;
        merged.dist = d;
        let ghost mt0 = mult_time as int;
        let ghost md0 = mult_dist as int;
        let ghost outcome = match (grow(mt0, t as int), grow(md0, d as int)) {
            (Some(a), Some(b)) => Some((t as int, d as int, a, b)),
            _ => None,
        };
        assert(merge(here) == outcome);
        while mult_time < merged.time
            invariant
                mult_time >= 1,
                merged.time == t,
                merge(here) == outcome,
                outcome == match (grow(mt0, t as int), grow(md0, d as int)) {
                    (Some(a), Some(b)) => Some((t as int, d as int, a, b)),
                    _ => None::<(int, int, int, int)>,
                },
                k >= 1,
                k <= races@.len(),
                here == races@.subrange(k - 1, races@.len() as int),
                grow(mt0, merged.time as int) == grow(mult_time as int, merged.time as int),
            decreases if mult_time < merged.time {
                merged.time - mult_time
            } else {
                0
            },
        {
            match mult_time.checked_mul(10) {
                Some(m) => {
                    proof {
                        lemma_grow_step(mult_time as int, merged.time as int);
                    }
                    mult_time = m;
                },
                None => {
                    proof {
                        lemma_merge_prefix(races@, k - 1);
                    }
                    return None;
                },
            }
        }
        while mult_dist < merged.dist
            invariant
                mult_dist >= 1,
                mult_time >= 1,
                merged.time == t,
                merged.dist == d,
                merge(here) == outcome,
                outcome == match (grow(mt0, t as int), grow(md0, d as int)) {
                    (Some(a), Some(b)) => Some((t as int, d as int, a, b)),
                    _ => None::<(int, int, int, int)>,
                },
                grow(mt0, t as int) == Some(mult_time as int),
                k >= 1,
                k <= races@.len(),
                here == races@.subrange(k - 1, races@.len() as int),
                grow(md0, merged.dist as int) == grow(mult_dist as int, merged.dist as int),
            decreases if mult_dist < merged.dist {
                merged.dist - mult_dist
            } else {
                0
            },
        {
            match mult_dist.checked_mul(10) {
                Some(m) => {
                    proof {
                        lemma_grow_step(mult_dist as int, merged.dist as int);
                    }
                    mult_dist = m;
                },
                None => {
                    proof {
                        lemma_merge_prefix(races@, k - 1);
                    }
                    return None;
                },
            }
        }
        assert(grow(md0, d as int) == Some(mult_dist as int));
        k = k - 1;
    }
    assert(races@.subrange(0, races@.len() as int) =~= races@);
    Some(merged)
}

proof fn lemma_merge_prefix(rs: Seq<Race>, k: int)
    requires
        0 <= k <= rs.len(),
        merge(rs.subrange(k, rs.len() as int)) is None,
    ensures
        merge(rs) is None,
    decreases k,
{
    if k > 0 {
        assert(rs.subrange(k - 1, rs.len() as int).drop_first() =~= rs.subrange(k, rs.len() as int));
        lemma_merge_prefix(rs, k - 1);
    } else {
        assert(rs.subrange(0, rs.len() as int) =~= rs);
    }
}

/// Whether `line` starts with `word`.
fn has_prefix(line: &Vec<char>, word: &[char]) -> (r: bool)
    ensures
        r == starts_with(line@, word@),
{
    if line.len() < word.len() {
        return false;
    }
    let mut k: usize = 0;
    while k < word.len()
        invariant
            line@.len() >= word@.len(),
            k <= word@.len(),
            forall|j: int| 0 <= j < k ==> line@[j] == word@[j],
        decreases word@.len() - k,
    {
        if line[k] != word[k] {
            assert(line@.take(word@.len() as int)[k as int] != word@[k as int]);
            return false;
        }
        k = k + 1;
    }
    assert(line@.take(word@.len() as int) =~= word@);
    true
}

/// Reads the races: a `Time:` line and a `Distance:` line of numbers, paired in order;
/// `None` when either line is missing or lacks its label.
pub fn parse_input(input: &str) -> (r: Option<Vec<Race>>)
    ensures
        r is Some <==> races_of(lines(input@)) is Some,
        r matches Some(v) ==> v@ == races_of(lines(input@)).unwrap(),
{
    let chars = chars_of(input);
    let ranges = line_ranges(&chars);
    let ghost ls = lines(chars@);
    if ranges.len() < 2 {
        return None;
    }
    let first = sub_chars(&chars, ranges[0]);
    let second = sub_chars(&chars, ranges[1]);
    let time_label = ['T', 'i', 'm', 'e', ':'];
    let dist_label = ['D', 'i', 's', 't', 'a', 'n', 'c', 'e', ':'];
    assert(time_label@ =~= time_word());
    assert(dist_label@ =~= distance_word());
    if !has_prefix(&first, &time_label) || !has_prefix(&second, &dist_label) {
        return None;
    }
    let times_text = sub_chars(&first, (5, first.len()));
    let dists_text = sub_chars(&second, (9, second.len()));
    assert(times_text@ =~= ls[0].skip(5));
    assert(dists_text@ =~= ls[1].skip(9));
    let times = decimal_list(&times_text, u64::MAX);
    let dists = decimal_list(&dists_text, u64::MAX);
    let ghost ts = decimals_of(words(ls[0].skip(5)), u64::MAX as int);
    let ghost ds = decimals_of(words(ls[1].skip(9)), u64::MAX as int);
    let mut races: Vec<Race> = Vec::new();
    let mut k: usize = 0;
    while k < times.len() && k < dists.len()
        invariant
            times@.len() == ts.len(),
            dists@.len() == ds.len(),
            forall|j: int| 0 <= j < times@.len() ==> times@[j] as int == #[trigger] ts[j],
            forall|j: int| 0 <= j < dists@.len() ==> dists@[j] as int == #[trigger] ds[j],
            k <= times@.len(),
            k <= dists@.len(),
            races@.len() == k,
            forall|j: int|
                0 <= j < k ==> #[trigger] races@[j] == (Race { time: ts[j] as u64, dist: ds[j] as u64 }),
        decreases times@.len() - k,
    {
        races.push(Race { time: times[k], dist: dists[k] });
        k = k + 1;
    }
    assert(races@ =~= races_of(ls).unwrap());
    Some(races)
}

proof fn lemma_product_prefix(rs: Seq<Race>, k: int)
    requires
        0 <= k <= rs.len(),
        ways_product(rs.take(k)) is None,
    ensures
        ways_product(rs) is None,
    decreases rs.len() - k,
{
    if k < rs.len() {
        assert(rs.take(k + 1).drop_last() =~= rs.take(k));
        lemma_product_prefix(rs, k + 1);
    } else {
        assert(rs.take(k) =~= rs);
    }
}

/// The product of the numbers of ways to win each race; `None` when the sheet is malformed
/// or a count or partial product exceeds `u64::MAX`.
pub fn part_one(input: &str) -> (r: Option<u64>)
    ensures
        r is Some <==> (races_of(lines(input@)) matches Some(rs) && ways_product(rs) is Some),
        r matches Some(v) ==> ways_product(races_of(lines(input@)).unwrap()) == Some(v as int),
{
    let races = match parse_input(input) {
        Some(r) => r,
        None => {
            return None;
        },
    };
    let ghost rs = races@;
    let mut product: u64 = 1;
    let mut k: usize = 0;
    assert(rs.take(0) =~= Seq::<Race>::empty());
    while k < races.len()
        invariant
            rs == races@,
            races_of(lines(input@)) == Some(rs),
            k <= rs.len(),
            ways_product(rs.take(k as int)) == Some(product as int),
        decreases rs.len() - k,
    {
        assert(rs.take(k + 1).drop_last() =~= rs.take(k as int));
        assert(rs.take(k + 1).last() == rs[k as int]);
        let w = match solve(&races[k]) {
            Some(w) => w,
            None => {
                proof {
                    lemma_product_prefix(rs, k + 1);
                }
                return None;
            },
        };
        match product.checked_mul(w) {
            Some(p) => {
                product = p;
            },
            None => {
                proof {
                    lemma_product_prefix(rs, k + 1);
                }
                return None;
            },
        }
        k = k + 1;
    }
    assert(rs.take(k as int) =~= rs);
    Some(product)
}

/// The number of ways to win the one race whose time and record are the digits of all
/// races side by side; `None` when the sheet is malformed, the merge overflows, or a
/// distance exceeds `u64::MAX`.
pub fn part_two(input: &str) -> (r: Option<u64>)
    ensures
        r is Some <==> (races_of(lines(input@)) matches Some(rs) && merge(rs) matches Some(m)
            && ways((Race { time: m.0 as u64, dist: m.1 as u64 })) is Some),
        r matches Some(v) ==> ({
            let m = merge(races_of(lines(input@)).unwrap()).unwrap();
            ways((Race { time: m.0 as u64, dist: m.1 as u64 })) == Some(v as int)
        }),
{
    let races = match parse_input(input) {
        Some(r) => r,
        None => {
            return None;
        },
    };
    let merged = match merge_races(races.as_slice()) {
        Some(m) => m,
        None => {
            return None;
        },
    };
    solve(&merged)
}

} // verus!
