// Scratchcards: winning numbers per card, points, and copies won.
use vstd::arithmetic::power2::pow2;
use vstd::prelude::*;

use crate::parse::{chars_of, decimals_of, line_ranges, lines, piece_ranges, pieces, sub_chars, u32_words, words};

verus! {

/// The numbers of `ws` that are `u32`s, in order.
pub open spec fn numbers_of(text: Seq<char>) -> Seq<int> {
    decimals_of(words(text), u32::MAX as int)
}

/// How many distinct numbers of `winners` occur in `numbers`.
pub open spec fn shared_count(winners: Seq<int>, numbers: Seq<int>, n: int) -> nat
    decreases n,
{
    if n <= 0 {
        0
    } else {
        shared_count(winners, numbers, n - 1) + (if numbers.contains(winners[n - 1])
            && !winners.take(n - 1).contains(winners[n - 1]) {
            1nat
        } else {
            0nat
        })
    }
}

/// The number of winning numbers a card `Card n: winners | numbers` holds, when the line has
/// that shape.
pub open spec fn card_of(line: Seq<char>) -> Option<int> {
    let by_colon = pieces(line, ':');
    if by_colon.len() < 2 {
        None
    } else {
        let halves = pieces(by_colon[1], '|');
        if halves.len() < 2 {
            None
        } else {
            let w = numbers_of(halves[0]);
            Some(shared_count(w, numbers_of(halves[1]), w.len() as int) as int)
        }
    }
}

/// The winning counts of the cards of `ls`, when every line is a card.
pub open spec fn cards_of(ls: Seq<Seq<char>>) -> Option<Seq<int>>
    decreases ls.len(),
{
    if ls.len() == 0 {
        Some(Seq::empty())
    } else {
        match (cards_of(ls.drop_last()), card_of(ls.last())) {
            (Some(v), Some(c)) => Some(v.push(c)),
            _ => None,
        }
    }
}

/// Reads the white-space separated `u32`s of `text`.
pub fn parse_input_numbers(text: &Vec<char>) -> (r: Vec<u32>)
    ensures
        r@.len() == numbers_of(text@).len(),
        forall|k: int| 0 <= k < r@.len() ==> r@[k] as int == #[trigger] numbers_of(text@)[k],
{
    u32_words(text)
}

/// Whether `v` occurs in `s`.
fn contains(s: &Vec<u32>, v: u32, n: usize) -> (r: bool)
    requires
        n <= s@.len(),
    ensures
        r == s@.take(n as int).contains(v),
{
    let mut k: usize = 0;
    while k < n
        invariant
            n <= s@.len(),
            k <= n,
            forall|j: int| 0 <= j < k ==> s@[j] != v,
        decreases n - k,
    {
        if s[k] == v {
            assert(s@.take(n as int)[k as int] == v);
            return true;
        }
        k = k + 1;
    }
    assert forall|j: int| 0 <= j < n implies s@.take(n as int)[j] != v by {}
    false
}

/// Reads one card and counts the distinct winning numbers it holds.
pub fn parse_input_line(line: &Vec<char>) -> (r: Option<u32>)
    ensures
        r matches Some(v) ==> card_of(line@) matches Some(c) && v as int == c % 0x1_0000_0000,
        r is None ==> card_of(line@) is None,
{
    let by_colon = piece_ranges(line, ':');
    if by_colon.len() < 2 {
        return None;
    }
    let body = sub_chars(line, by_colon[1]);
    let halves = piece_ranges(&body, '|');
    if halves.len() < 2 {
        return None;
    }
    let winners_text = sub_chars(&body, halves[0]);
    let numbers_text = sub_chars(&body, halves[1]);
    let winners = parse_input_numbers(&winners_text);
    let numbers = parse_input_numbers(&numbers_text);
    let ghost w = numbers_of(winners_text@);
    let ghost nums = numbers_of(numbers_text@);
    assert(winners@.map_values(|x: u32| x as int) =~= w);
    assert(numbers@.map_values(|x: u32| x as int) =~= nums);
    assert(card_of(line@) == Some(shared_count(w, nums, w.len() as int) as int));
    let mut count: usize = 0;
    let mut k: usize = 0;
    while k < winners.len()
        invariant
            card_of(line@) == Some(shared_count(w, nums, w.len() as int) as int),
            winners@.map_values(|x: u32| x as int) == w,
            numbers@.map_values(|x: u32| x as int) == nums,
            k <= winners@.len(),
            count == shared_count(w, nums, k as int),
            count <= k,
        decreases winners@.len() - k,
    {
        let v = winners[k];
        let in_numbers = contains(&numbers, v, numbers.len());
        let seen = contains(&winners, v, k);
        proof {
            assert(numbers@.take(numbers@.len() as int) =~= numbers@);
            lemma_contains_map(numbers@, v, numbers@.len() as int);
            lemma_contains_map(winners@, v, k as int);
            assert(w.take(k as int) =~= winners@.take(k as int).map_values(|x: u32| x as int));
            assert(nums =~= numbers@.take(numbers@.len() as int).map_values(|x: u32| x as int));
        }
        if in_numbers && !seen {
            count = count + 1;
        }
        k = k + 1;
    }
    Some(((count as u64) % 0x1_0000_0000) as u32)
}

proof fn lemma_contains_map(s: Seq<u32>, v: u32, n: int)
    requires
        0 <= n <= s.len(),
    ensures
        s.take(n).contains(v) == s.take(n).map_values(|x: u32| x as int).contains(v as int),
{
    let m = s.take(n).map_values(|x: u32| x as int);
    if s.take(n).contains(v) {
        let i = choose|i: int| 0 <= i < n && s.take(n)[i] == v;
        assert(m[i] == v as int);
    }
    if m.contains(v as int) {
        let i = choose|i: int| 0 <= i < m.len() && m[i] == v as int;
        assert(s.take(n)[i] == v);
    }
}

proof fn lemma_cards_prefix(ls: Seq<Seq<char>>, k: int)
    requires
        0 <= k <= ls.len(),
        cards_of(ls.take(k)) is None,
    ensures
        cards_of(ls) is None,
    decreases ls.len() - k,
{
    if k < ls.len() {
        assert(ls.take(k + 1).drop_last() =~= ls.take(k));
        lemma_cards_prefix(ls, k + 1);
    } else {
        assert(ls.take(k) =~= ls);
    }
}

/// The winning counts of the cards, each kept modulo 2^32.
pub open spec fn scores_of(cs: Seq<int>) -> Seq<int> {
    cs.map_values(|c: int| c % 0x1_0000_0000)
}

/// Reads every card and counts its winning numbers; `None` when a line is not a card.
pub fn parse_input(input: &str) -> (r: Option<Vec<u32>>)
    ensures
        r is Some <==> cards_of(lines(input@)) is Some,
        r matches Some(v) ==> v@.map_values(|x: u32| x as int) == scores_of(
            cards_of(lines(input@)).unwrap(),
        ),
{
    let chars = chars_of(input);
    let ranges = line_ranges(&chars);
    let ghost ls = lines(chars@);
    let mut out: Vec<u32> = Vec::new();
    let mut k: usize = 0;
    assert(ls.take(0) =~= Seq::<Seq<char>>::empty());
    assert(out@.map_values(|x: u32| x as int) =~= scores_of(Seq::<int>::empty()));
    while k < ranges.len()
        invariant
            chars@ == input@,
            ls == lines(chars@),
            ranges@.len() == ls.len(),
            forall|j: int|
                0 <= j < ranges@.len() ==> (#[trigger] ranges@[j]).0 <= ranges@[j].1
                    <= chars@.len(),
            forall|j: int|
                0 <= j < ranges@.len() ==> chars@.subrange(ranges@[j].0 as int, ranges@[j].1 as int)
                    == #[trigger] ls[j],
            k <= ranges@.len(),
            cards_of(ls.take(k as int)) is Some,
            out@.map_values(|x: u32| x as int) == scores_of(cards_of(ls.take(k as int)).unwrap()),
        decreases ranges@.len() - k,
    {
        assert(ls.take(k + 1).drop_last() =~= ls.take(k as int));
        assert(ls.take(k + 1).last() == ls[k as int]);
        let line = sub_chars(&chars, ranges[k]);
        let ghost before = out@;
        match parse_input_line(&line) {
            Some(c) => {
                out.push(c);
                let ghost prev = cards_of(ls.take(k as int)).unwrap();
                let ghost card = card_of(ls[k as int]).unwrap();
                assert(cards_of(ls.take(k + 1)).unwrap() == prev.push(card));
                assert(scores_of(prev.push(card)) =~= scores_of(prev).push(card % 0x1_0000_0000));
                assert(out@.map_values(|x: u32| x as int) =~= before.map_values(|x: u32| x as int).push(
                    c as int,
                ));
            },
            None => {
                proof {
                    lemma_cards_prefix(ls, k + 1);
                }
                return None;
            },
        }
        k = k + 1;
    }
    assert(ls.take(k as int) =~= ls);
    Some(out)
}

/// The points of a card with `score` winning numbers: none for none, else one doubled for
/// each after the first; `None` when that exceeds `u32::MAX`.
pub open spec fn points(score: int) -> Option<int> {
    if score == 0 {
        Some(0)
    } else if score - 1 < 32 {
        Some(pow2((score - 1) as nat) as int)
    } else {
        None
    }
}

/// The points of all cards, summed in order; `None` once a card's points or the sum exceed
/// `u32::MAX`.
pub open spec fn points_total(ss: Seq<int>) -> Option<int>
    decreases ss.len(),
{
    if ss.len() == 0 {
        Some(0)
    } else {
        match (points_total(ss.drop_last()), points(ss.last())) {
            (Some(a), Some(b)) => if a + b <= u32::MAX {
                Some(a + b)
            } else {
                None
            },
            _ => None,
        }
    }
}

/// The points of a card with `score` winning numbers; `None` when they exceed `u32::MAX`.
pub fn part_one_each(score: &u32) -> (r: Option<u32>)
    ensures
        r matches Some(v) ==> points(*score as int) == Some(v as int),
        r is None ==> points(*score as int) is None,
{
    if *score == 0 {
        return Some(0);
    }
    let shift = *score - 1;
    if shift >= 32 {
        return None;
    }
    proof {
        vstd::bits::lemma_u32_pow2_no_overflow(shift as nat);
        vstd::bits::lemma_u32_shl_is_mul(1, shift);
    }
    Some(1u32 << shift)
}

proof fn lemma_points_prefix(ss: Seq<int>, k: int)
    requires
        0 <= k <= ss.len(),
        points_total(ss.take(k)) is None,
    ensures
        points_total(ss) is None,
    decreases ss.len() - k,
{
    if k < ss.len() {
        assert(ss.take(k + 1).drop_last() =~= ss.take(k));
        lemma_points_prefix(ss, k + 1);
    } else {
        assert(ss.take(k) =~= ss);
    }
}

/// The total points of the cards of `input`; `None` when a line is not a card or a card's
/// points or the sum exceed `u32::MAX`.
pub fn part_one(input: &str) -> (r: Option<u32>)
    ensures
        r is Some <==> (cards_of(lines(input@)) matches Some(cs) && points_total(scores_of(cs))
            is Some),
        r matches Some(v) ==> points_total(scores_of(cards_of(lines(input@)).unwrap())) == Some(
            v as int,
        ),
{
    let scores = match parse_input(input) {
        Some(s) => s,
        None => {
            return None;
        },
    };
    let ghost ss = scores_of(cards_of(lines(input@)).unwrap());
    let mut total: u32 = 0;
    let mut k: usize = 0;
    assert(ss.take(0) =~= Seq::<int>::empty());
    while k < scores.len()
        invariant
            ss == scores_of(cards_of(lines(input@)).unwrap()),
            cards_of(lines(input@)) is Some,
            scores@.map_values(|x: u32| x as int) == ss,
            k <= ss.len(),
            points_total(ss.take(k as int)) == Some(total as int),
        decreases ss.len() - k,
    {
        assert(ss.take(k + 1).drop_last() =~= ss.take(k as int));
        assert(ss.take(k + 1).last() == ss[k as int]);
        assert(ss[k as int] == scores@[k as int] as int);
        let p = match part_one_each(&scores[k]) {
            Some(p) => p,
            None => {
                proof {
                    lemma_points_prefix(ss, k + 1);
                }
                return None;
            },
        };
        match total.checked_add(p) {
            Some(t) => {
                total = t;
            },
            None => {
                proof {
                    lemma_points_prefix(ss, k + 1);
                }
                return None;
            },
        }
        k = k + 1;
    }
    assert(ss.take(k as int) =~= ss);
    Some(total)
}

/// The copies `c` after card `a`, holding `s` winning numbers, adds its copies to each of
/// the `s` cards after it.
pub open spec fn add_copies(c: Seq<int>, a: int, s: int) -> Seq<int> {
    Seq::new(c.len(), |k: int| if a < k <= a + s { c[k] + c[a] } else { c[k] })
}

/// The copies of each card once the first `i` cards have been scored; `None` once a card
/// would add copies past the last card or a count exceeds `u32::MAX`.
pub open spec fn won_copies(ss: Seq<int>, i: int) -> Option<Seq<int>>
    decreases i,
{
    if i <= 0 {
        Some(Seq::new(ss.len(), |k: int| 1int))
    } else {
        match won_copies(ss, i - 1) {
            None => None,
            Some(c) => {
                let a = i - 1;
                let s = ss[a];
                if s > 0 && a + s >= ss.len() {
                    None
                } else if forall|k: int| a < k <= a + s ==> #[trigger] add_copies(c, a, s)[k] <= u32::MAX {
                    Some(add_copies(c, a, s))
                } else {
                    None
                }
            },
        }
    }
}

/// The sum of the first `n` entries of `c`.
pub open spec fn sum_of(c: Seq<int>, n: int) -> int
    decreases n,
{
    if n <= 0 {
        0
    } else {
        sum_of(c, n - 1) + c[n - 1]
    }
}

/// The number of cards held in the end, when every step stays within bounds and `u32`.
pub open spec fn card_total(ss: Seq<int>) -> Option<int> {
    match won_copies(ss, ss.len() as int) {
        Some(c) => if sum_of(c, c.len() as int) <= u32::MAX {
            Some(sum_of(c, c.len() as int))
        } else {
            None
        },
        None => None,
    }
}

proof fn lemma_copies_prefix(ss: Seq<int>, i: int)
    requires
        0 <= i <= ss.len(),
        won_copies(ss, i) is None,
    ensures
        won_copies(ss, ss.len() as int) is None,
    decreases ss.len() - i,
{
    if i < ss.len() {
        lemma_copies_prefix(ss, i + 1);
    }
}

proof fn lemma_copies_shape(ss: Seq<int>, i: int)
    requires
        0 <= i <= ss.len(),
        won_copies(ss, i) is Some,
    ensures
        won_copies(ss, i).unwrap().len() == ss.len(),
        forall|k: int|
            0 <= k < ss.len() ==> 1 <= #[trigger] won_copies(ss, i).unwrap()[k] <= u32::MAX,
    decreases i,
{
    if i > 0 {
        lemma_copies_shape(ss, i - 1);
    }
}

proof fn lemma_sum_prefix(c: Seq<int>, n: int, m: int)
    requires
        0 <= n <= m <= c.len(),
        forall|k: int| 0 <= k < c.len() ==> #[trigger] c[k] >= 0,
    ensures
        0 <= sum_of(c, n) <= sum_of(c, m),
    decreases m - n,
{
    if n < m {
        lemma_sum_prefix(c, n, m - 1);
    } else {
        lemma_sum_nonneg(c, n);
    }
}

proof fn lemma_sum_nonneg(c: Seq<int>, n: int)
    requires
        0 <= n <= c.len(),
        forall|k: int| 0 <= k < c.len() ==> #[trigger] c[k] >= 0,
    ensures
        sum_of(c, n) >= 0,
    decreases n,
{
    if n > 0 {
        lemma_sum_nonneg(c, n - 1);
    }
}

/// The number of cards held once every card's copies have won more cards; `None` when a
/// line is not a card, a card would win copies past the last card, or a count exceeds
/// `u32::MAX`.
pub fn part_two(input: &str) -> (r: Option<u32>)
    ensures
        r is Some <==> (cards_of(lines(input@)) matches Some(cs) && card_total(scores_of(cs))
            is Some),
        r matches Some(v) ==> card_total(scores_of(cards_of(lines(input@)).unwrap())) == Some(
            v as int,
        ),
{
    let cards = match parse_input(input) {
        Some(s) => s,
        None => {
            return None;
        },
    };
    let ghost ss = scores_of(cards_of(lines(input@)).unwrap());
    let n = cards.len();
    let mut counts: Vec<u32> = vec![1u32; n];
    assert(counts@.map_values(|x: u32| x as int) =~= won_copies(ss, 0).unwrap());
    let mut i: usize = 0;
    while i < n
        invariant
            ss == scores_of(cards_of(lines(input@)).unwrap()),
            cards_of(lines(input@)) is Some,
            cards@.map_values(|x: u32| x as int) == ss,
            n == cards@.len(),
            i <= n,
            won_copies(ss, i as int) is Some,
            counts@.map_values(|x: u32| x as int) == won_copies(ss, i as int).unwrap(),
        decreases n - i,
    {
        let ghost c = won_copies(ss, i as int).unwrap();
        proof {
            lemma_copies_shape(ss, i as int);
        }
        assert(ss[i as int] == cards@[i as int] as int);
        let score = cards[i] as usize;
        let mut j: usize = 0;
        while j < score
            invariant
                ss == scores_of(cards_of(lines(input@)).unwrap()),
                c == won_copies(ss, i as int).unwrap(),
                won_copies(ss, i as int) is Some,
                c.len() == n,
                n == ss.len(),
                i < n,
                score == ss[i as int],
                j <= score,
                j > 0 ==> i + j < n,
                forall|k: int| 0 <= k < c.len() ==> 1 <= #[trigger] c[k] <= u32::MAX,
                counts@.len() == n,
                forall|k: int|
                    0 <= k < n ==> #[trigger] counts@[k] as int == if i < k <= i + j {
                        c[k] + c[i as int]
                    } else {
                        c[k]
                    },
                forall|k: int| i < k <= i + j ==> #[trigger] add_copies(c, i as int, score as int)[k] <= u32::MAX,
            decreases score - j,
        {
            if j >= n - (i + 1) {
                assert(won_copies(ss, i + 1) is None);
                proof {
                    lemma_copies_prefix(ss, i + 1);
                }
                return None;
            }
            let idx = j + i + 1;
            match counts[idx].checked_add(counts[i]) {
                Some(v) => {
                    counts.set(idx, v);
                },
                None => {
                    assert(add_copies(c, i as int, score as int)[idx as int] > u32::MAX);
                    assert(won_copies(ss, i + 1) is None);
                    proof {
                        lemma_copies_prefix(ss, i + 1);
                    }
                    return None;
                },
            }
            j = j + 1;
        }
        assert(counts@.map_values(|x: u32| x as int) =~= add_copies(c, i as int, score as int));
        assert(won_copies(ss, i + 1) == Some(add_copies(c, i as int, score as int)));
        i = i + 1;
    }
    let ghost fin = won_copies(ss, n as int).unwrap();
    proof {
        lemma_copies_shape(ss, n as int);
    }
    let mut total: u32 = 0;
    let mut k: usize = 0;
    while k < n
        invariant
            ss == scores_of(cards_of(lines(input@)).unwrap()),
            n == ss.len(),
            fin == won_copies(ss, n as int).unwrap(),
            won_copies(ss, n as int) is Some,
            fin.len() == n,
            forall|j: int| 0 <= j < n ==> 1 <= #[trigger] fin[j] <= u32::MAX,
            counts@.map_values(|x: u32| x as int) == fin,
            k <= n,
            total as int == sum_of(fin, k as int),
        decreases n - k,
    {
        assert(counts@[k as int] as int == fin[k as int]);
        match total.checked_add(counts[k]) {
            Some(t) => {
                total = t;
            },
            None => {
                proof {
                    lemma_sum_prefix(fin, k + 1, n as int);
                }
                return None;
            },
        }
        k = k + 1;
    }
    Some(total)
}

} // verus!
