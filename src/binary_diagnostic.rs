// Binary diagnostic: power consumption from the most common bits, and the oxygen and CO2
// ratings found by filtering on bit groups.
use itertools::Itertools;
use vstd::arithmetic::power2::pow2;
use vstd::prelude::*;

use crate::parse::{chars_of, line_ranges, lines, unsigned_body};

verus! {

/// The number of bits each report value is read with.
pub const WIDTH: usize = 12;

pub open spec fn is_bit(c: char) -> bool {
    c == '0' || c == '1'
}

/// The value of a run of binary digits.
pub open spec fn bits_value(s: Seq<char>) -> int
    decreases s.len(),
{
    if s.len() == 0 {
        0
    } else {
        bits_value(s.drop_last()) * 2 + (if s.last() == '1' {
            1int
        } else {
            0int
        })
    }
}

/// The `u32` that `s` spells in binary (an optional `+`, then at least one binary digit).
pub open spec fn binary(s: Seq<char>) -> Option<int> {
    let d = unsigned_body(s);
    if d.len() > 0 && (forall|i: int| 0 <= i < d.len() ==> is_bit(#[trigger] d[i]))
        && bits_value(d) <= u32::MAX {
        Some(bits_value(d))
    } else {
        None
    }
}

/// The values of the lines `ls`, when every line is binary.
pub open spec fn report_of(ls: Seq<Seq<char>>) -> Option<Seq<int>>
    decreases ls.len(),
{
    if ls.len() == 0 {
        Some(Seq::empty())
    } else {
        match (report_of(ls.drop_last()), binary(ls.last())) {
            (Some(v), Some(x)) => Some(v.push(x)),
            _ => None,
        }
    }
}

/// Bit `bit` of `v` is set.
pub open spec fn bit_set(v: u32, bit: int) -> bool {
    (v / pow2(bit as nat) as u32) % 2 == 1
}

/// How many of the first `n` values of `vs` have bit `bit` set.
pub open spec fn bit_count(vs: Seq<u32>, bit: int, n: int) -> int
    decreases n,
{
    if n <= 0 {
        0
    } else {
        bit_count(vs, bit, n - 1) + (if bit_set(vs[n - 1], bit) {
            1int
        } else {
            0int
        })
    }
}

/// Relies on itertools' `sorted`: the items in ascending order.
#[verifier::external_body]
fn sorted_values(v: Vec<u32>) -> (r: Vec<u32>)
    ensures
        r@.len() == v@.len(),
        r@.map_values(|x: u32| x as int) == v@.map_values(|x: u32| x as int).sort(),
{
    v.into_iter().sorted().collect()
}

proof fn lemma_bits_nonneg(s: Seq<char>)
    ensures
        bits_value(s) >= 0,
    decreases s.len(),
{
    if s.len() > 0 {
        lemma_bits_nonneg(s.drop_last());
    }
}

/// Reads `line` as a `u32` in binary.
fn parse_input_line(line: &Vec<char>) -> (r: Option<u32>)
    ensures
        r matches Some(v) ==> binary(line@) == Some(v as int),
        r is None ==> binary(line@) is None,
{
    let ghost s = line@;
    let end = line.len();
    let mut first: usize = 0;
    if end > 0 && line[0] == '+' {
        first = 1;
    }
    let ghost d = unsigned_body(s);
    assert(d =~= line@.subrange(first as int, end as int));
    if first == end {
        return None;
    }
    let mut value: u64 = 0;
    let mut over = false;
    let mut i = first;
    while i < end
        invariant
            end == line@.len(),
            first < end,
            first <= i <= end,
            s == line@,
            d == line@.subrange(first as int, end as int),
            d == unsigned_body(s),
            forall|k: int| first <= k < i ==> is_bit(#[trigger] line@[k]),
            over ==> bits_value(line@.subrange(first as int, i as int)) > u32::MAX,
            !over ==> bits_value(line@.subrange(first as int, i as int)) == value as int,
            !over ==> value <= u32::MAX,
        decreases end - i,
    {
        let c = line[i];
        if c != '0' && c != '1' {
            assert(!is_bit(d[i - first]));
            return None;
        }
        let ghost prefix = line@.subrange(first as int, i as int);
        assert(line@.subrange(first as int, i + 1).drop_last() =~= prefix);
        proof {
            lemma_bits_nonneg(prefix);
        }
        if !over {
            let v = value * 2 + if c == '1' {
                1
            } else {
                0
            };
            if v <= u32::MAX as u64 {
                value = v;
            } else {
                over = true;
            }
        }
        i = i + 1;
    }
    assert(line@.subrange(first as int, i as int) =~= d);
    if over {
        None
    } else {
        Some(value as u32)
    }
}

proof fn lemma_report_prefix(ls: Seq<Seq<char>>, k: int)
    requires
        0 <= k <= ls.len(),
        report_of(ls.take(k)) is None,
    ensures
        report_of(ls) is None,
    decreases ls.len() - k,
{
    if k < ls.len() {
        assert(ls.take(k + 1).drop_last() =~= ls.take(k));
        lemma_report_prefix(ls, k + 1);
    } else {
        assert(ls.take(k) =~= ls);
    }
}

/// Reads one binary value per line, in ascending order; `None` when a line is not binary.
pub fn parse_input(input: &str) -> (r: Option<Vec<u32>>)
    ensures
        r is Some <==> report_of(lines(input@)) is Some,
        r matches Some(v) ==> v@.map_values(|x: u32| x as int) == report_of(lines(input@)).unwrap().sort(),
{
    let chars = chars_of(input);
    let ranges = line_ranges(&chars);
    let ghost ls = lines(chars@);
    let mut out: Vec<u32> = Vec::new();
    let mut k: usize = 0;
    assert(ls.take(0) =~= Seq::<Seq<char>>::empty());
    assert(out@.map_values(|x: u32| x as int) =~= Seq::<int>::empty());
    while k < ranges.len()
        invariant
            chars@ == input@,
            ls == lines(chars@),
            ranges@.len() == ls.len(),
            forall|j: int|
                0 <= j < ranges@.len() ==> (#[trigger] ranges@[j]).0 <= ranges@[j].1
                    <= chars@.len(),
            forall|j: int|
                0 <= j < ranges@.len() ==> chars@.subrange(ranges@[j].0 as int, ranges@[j].1 as int)
                    == #[trigger] ls[j],
            k <= ranges@.len(),
            report_of(ls.take(k as int)) == Some(out@.map_values(|x: u32| x as int)),
        decreases ranges@.len() - k,
    {
        assert(ls.take(k + 1).drop_last() =~= ls.take(k as int));
        assert(ls.take(k + 1).last() == ls[k as int]);
        let line = crate::parse::sub_chars(&chars, ranges[k]);
        let ghost before = out@;
        match parse_input_line(&line) {
            Some(v) => {
                out.push(v);
                assert(out@.map_values(|x: u32| x as int) =~= before.map_values(|x: u32| x as int).push(
                    v as int,
                ));
            },
            None => {
                proof {
                    lemma_report_prefix(ls, k + 1);
                }
                return None;
            },
        }
        k = k + 1;
    }
    assert(ls.take(k as int) =~= ls);
    Some(sorted_values(out))
}

/// Whether bit `bit` of `value` is set.
pub fn read_bit(value: u32, bit: usize) -> (r: bool)
    requires
        bit < 32,
    ensures
        r == bit_set(value, bit as int),
{
    let b = bit as u32;
    proof {
        vstd::bits::lemma_u32_pow2_no_overflow(b as nat);
        vstd::bits::lemma_u32_shl_is_mul(1, b);
        vstd::bits::lemma_u32_shr_is_div(value, b);
    }
    let mask: u32 = 1u32 << b;
    let set = value & mask != 0;
    assert(set == ((value >> b) % 2 == 1)) by (bit_vector)
        requires
            b < 32,
            mask == 1u32 << b,
            set == (value & mask != 0),
    ;
    set
}

/// The sorted report as `u32`s.
pub open spec fn as_u32s(s: Seq<int>) -> Seq<u32> {
    s.map_values(|x: int| x as u32)
}

/// The sum of `2^b` over the bits `b` below `n` whose count is at least `half` (when
/// `common`) or below it (when not).
pub open spec fn rate(vs: Seq<u32>, half: int, common: bool, n: int) -> int
    decreases n,
{
    if n <= 0 {
        0
    } else {
        let b = n - 1;
        let keep = if common {
            bit_count(vs, b, vs.len() as int) >= half
        } else {
            bit_count(vs, b, vs.len() as int) < half
        };
        rate(vs, half, common, n - 1) + (if keep {
            pow2(b as nat) as int
        } else {
            0
        })
    }
}

/// The power consumption, gamma rate times epsilon rate, over the twelve low bits; `None`
/// when a bit count exceeds `u32::MAX`.
pub open spec fn power(vs: Seq<u32>) -> Option<int> {
    let half = ((vs.len() % 0x1_0000_0000) / 2) as int;
    if forall|b: int| 0 <= b < 12 ==> #[trigger] bit_count(vs, b, vs.len() as int) <= u32::MAX {
        Some(rate(vs, half, true, 12) * rate(vs, half, false, 12))
    } else {
        None
    }
}

/// The index of the first value of `vs` from `k` on with bit `bit` set, or 0 when none is.
pub open spec fn first_set(vs: Seq<u32>, bit: int, k: int) -> int
    decreases vs.len() - k,
{
    if k < 0 || k >= vs.len() {
        0
    } else if bit_set(vs[k], bit) {
        k
    } else {
        first_set(vs, bit, k + 1)
    }
}

/// Splits `vs` before its first value with bit `bit` set and keeps the larger part (the
/// later one on a tie) when `use_larger` holds, the other part when not.
pub open spec fn narrow(vs: Seq<u32>, use_larger: bool, bit: int) -> Seq<u32> {
    let i = first_set(vs, bit, 0);
    let a = vs.take(i);
    let b = vs.skip(i);
    if a.len() <= b.len() {
        if use_larger {
            b
        } else {
            a
        }
    } else {
        if use_larger {
            a
        } else {
            b
        }
    }
}

/// Narrows `vs` on bits `n - 1` down to 0, stopping once one value is left.
pub open spec fn search(vs: Seq<u32>, use_larger: bool, n: int) -> Seq<u32>
    decreases n,
{
    if n <= 0 {
        vs
    } else {
        let m = narrow(vs, use_larger, n - 1);
        if m.len() == 1 {
            m
        } else {
            search(m, use_larger, n - 1)
        }
    }
}

/// The rating that the search leaves, when it leaves a value.
pub open spec fn rating(vs: Seq<u32>, use_larger: bool) -> Option<int> {
    let r = search(vs, use_larger, 12);
    if r.len() > 0 {
        Some(r[0] as int)
    } else {
        None
    }
}

proof fn lemma_rate_bound(vs: Seq<u32>, half: int, common: bool, n: int)
    requires
        0 <= n <= 12,
    ensures
        0 <= rate(vs, half, common, n) < pow2(n as nat),
    decreases n,
{
    if n > 0 {
        lemma_rate_bound(vs, half, common, n - 1);
        vstd::arithmetic::power2::lemma_pow2_unfold(n as nat);
    } else {
        vstd::arithmetic::power2::lemma_pow2_pos(0);
    }
}

/// The gamma rate times the epsilon rate of the report; `None` when a line is not binary or
/// a bit count exceeds `u32::MAX`.
pub fn part_one(input: &str) -> (r: Option<u32>)
    ensures
        r is Some <==> (report_of(lines(input@)) matches Some(rep) && power(as_u32s(rep.sort()))
            is Some),
        r matches Some(v) ==> power(as_u32s(report_of(lines(input@)).unwrap().sort())) == Some(
            v as int,
        ),
{
    let values = match parse_input(input) {
        Some(v) => v,
        None => {
            return None;
        },
    };
    let ghost vs = values@;
    assert(vs =~= as_u32s(report_of(lines(input@)).unwrap().sort())) by {
        let m = values@.map_values(|x: u32| x as int);
        assert forall|i: int| 0 <= i < vs.len() implies vs[i] == as_u32s(
            report_of(lines(input@)).unwrap().sort(),
        )[i] by {
            assert(m[i] == vs[i] as int);
        }
    }
    let mut counts: Vec<u32> = Vec::new();
    let mut bit: usize = 0;
    while bit < WIDTH
        invariant
            vs == values@,
            report_of(lines(input@)) is Some,
            vs == as_u32s(report_of(lines(input@)).unwrap().sort()),
            bit <= 12,
            counts@.len() == bit,
            forall|b: int| 0 <= b < bit ==> #[trigger] counts@[b] as int == bit_count(vs, b, vs.len() as int),
        decreases 12 - bit,
    {
        let mut count: u32 = 0;
        let mut k: usize = 0;
        while k < values.len()
            invariant
                vs == values@,
            report_of(lines(input@)) is Some,
            vs == as_u32s(report_of(lines(input@)).unwrap().sort()),
                bit < 12,
                k <= vs.len(),
                count as int == bit_count(vs, bit as int, k as int),
            decreases vs.len() - k,
        {
            if read_bit(values[k], bit) {
                count = match count.checked_add(1) {
                    Some(c) => c,
                    None => {
                        proof {
                            lemma_count_grows(vs, bit as int, k + 1, vs.len() as int);
                        }
                        assert(!(forall|b: int| 0 <= b < 12 ==> #[trigger] bit_count(vs, b, vs.len() as int) <= u32::MAX));
                        return None;
                    },
                };
            }
            k = k + 1;
        }
        counts.push(count);
        bit = bit + 1;
    }
    let half: u32 = ((values.len() as u64 % 0x1_0000_0000) as u32) / 2;
    assert(half as int == (vs.len() % 0x1_0000_0000) / 2);
    let mut rate_gam: u32 = 0;
    let mut rate_eps: u32 = 0;
    let mut b: usize = 0;
    while b < WIDTH
        invariant
            vs == values@,
            report_of(lines(input@)) is Some,
            vs == as_u32s(report_of(lines(input@)).unwrap().sort()),
            counts@.len() == 12,
            forall|j: int| 0 <= j < 12 ==> #[trigger] counts@[j] as int == bit_count(vs, j, vs.len() as int),
            half as int == (vs.len() % 0x1_0000_0000) / 2,
            b <= 12,
            rate_gam as int == rate(vs, half as int, true, b as int),
            rate_eps as int == rate(vs, half as int, false, b as int),
        decreases 12 - b,
    {
        proof {
            lemma_rate_bound(vs, half as int, true, b as int);
            lemma_rate_bound(vs, half as int, false, b as int);
            vstd::bits::lemma_u32_pow2_no_overflow(b as nat);
            vstd::bits::lemma_u32_shl_is_mul(1, b as u32);
            vstd::arithmetic::power2::lemma_pow2_strictly_increases(b as nat, 12);
            vstd::arithmetic::power2::lemma2_to64();
        }
        let step: u32 = 1u32 << (b as u32);
        if counts[b] < half {
            rate_eps = rate_eps + step;
        } else {
            rate_gam = rate_gam + step;
        }
        b = b + 1;
    }
    proof {
        assert forall|j: int| 0 <= j < 12 implies #[trigger] bit_count(vs, j, vs.len() as int)
            <= u32::MAX by {
            assert(counts@[j] as int == bit_count(vs, j, vs.len() as int));
        }
        lemma_rate_bound(vs, half as int, true, 12);
        lemma_rate_bound(vs, half as int, false, 12);
        vstd::arithmetic::power2::lemma2_to64();
        assert(rate_gam as int * rate_eps as int <= u32::MAX) by (nonlinear_arith)
            requires
                rate_gam < 4096,
                rate_eps < 4096,
        ;
    }
    Some(rate_gam * rate_eps)
}

proof fn lemma_count_grows(vs: Seq<u32>, bit: int, k: int, n: int)
    requires
        0 <= k <= n,
    ensures
        bit_count(vs, bit, k) <= bit_count(vs, bit, n),
    decreases n - k,
{
    if k < n {
        lemma_count_grows(vs, bit, k, n - 1);
    }
}

/// Narrows the sorted `values` bit by bit from bit 11 down, keeping the larger or the
/// smaller group, until one value is left; `None` when none is.
pub fn part_two_search(values: &[u32], use_larger: bool) -> (r: Option<u32>)
    ensures
        r is Some <==> rating(values@, use_larger) is Some,
        r matches Some(v) ==> rating(values@, use_larger) == Some(v as int),
{
    let mut lo: usize = 0;
    let mut hi: usize = values.len();
    let mut n: usize = WIDTH;
    assert(values@.subrange(0, values@.len() as int) =~= values@);
    while n > 0
        invariant
            lo <= hi <= values@.len(),
            n <= 12,
            search(values@, use_larger, 12) == search(
                values@.subrange(lo as int, hi as int),
                use_larger,
                n as int,
            ),
        decreases n,
    {
        let b = n - 1;
        let ghost sub = values@.subrange(lo as int, hi as int);
        let mut i: usize = 0;
        let mut p = lo;
        let mut found = false;
        while p < hi && !found
            invariant
                lo <= p <= hi <= values@.len(),
                sub == values@.subrange(lo as int, hi as int),
                b < 12,
                !found ==> first_set(sub, b as int, 0) == first_set(sub, b as int, p - lo),
                found ==> i == first_set(sub, b as int, 0) && i <= hi - lo,
            decreases hi - p, (if found { 0int } else { 1int }),
        {
            if read_bit(values[p], b) {
                i = p - lo;
                found = true;
            } else {
                p = p + 1;
            }
        }
        if !found {
            i = 0;
        }
        assert(i == first_set(sub, b as int, 0));
        let mid = lo + i;
        assert(sub.take(i as int) =~= values@.subrange(lo as int, mid as int));
        assert(sub.skip(i as int) =~= values@.subrange(mid as int, hi as int));
        if (mid - lo <= hi - mid) == use_larger {
            lo = mid;
        } else {
            hi = mid;
        }
        n = n - 1;
        if hi - lo == 1 {
            n = 0;
        }
    }
    if lo < hi {
        Some(values[lo])
    } else {
        None
    }
}

/// The life support rating: the oxygen rating (larger groups) times the CO2 rating
/// (smaller groups); `None` when either search leaves no value.
pub open spec fn life_support(vs: Seq<u32>) -> Option<int> {
    match (rating(vs, true), rating(vs, false)) {
        (Some(a), Some(b)) => if a * b <= u32::MAX {
            Some(a * b)
        } else {
            None
        },
        _ => None,
    }
}

/// The life support rating of the report; `None` when a line is not binary, a search leaves
/// no value or the product exceeds `u32::MAX`.
pub fn part_two(input: &str) -> (r: Option<u32>)
    ensures
        r is Some <==> (report_of(lines(input@)) matches Some(rep) && life_support(
            as_u32s(rep.sort()),
        ) is Some),
        r matches Some(v) ==> life_support(as_u32s(report_of(lines(input@)).unwrap().sort()))
            == Some(v as int),
{
    let values = match parse_input(input) {
        Some(v) => v,
        None => {
            return None;
        },
    };
    let ghost vs = values@;
    assert(vs =~= as_u32s(report_of(lines(input@)).unwrap().sort())) by {
        let m = values@.map_values(|x: u32| x as int);
        assert forall|i: int| 0 <= i < vs.len() implies vs[i] == as_u32s(
            report_of(lines(input@)).unwrap().sort(),
        )[i] by {
            assert(m[i] == vs[i] as int);
        }
    }
    let oxygen = match part_two_search(values.as_slice(), true) {
        Some(v) => v,
        None => {
            return None;
        },
    };
    let co2 = match part_two_search(values.as_slice(), false) {
        Some(v) => v,
        None => {
            return None;
        },
    };
    oxygen.checked_mul(co2)
}

} // verus!
