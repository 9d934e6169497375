// Camel cards: ranking poker-like hands, with and without jokers.
use vstd::prelude::*;

use crate::parse::{chars_of, decimal, decimal_in, line_ranges, lines, sub_chars, word_ranges, words};
use crate::sorting::sort_ascending;

verus! {

/// The kind of a hand, strongest first.
#[derive(Clone, Copy, Debug, PartialEq, Eq, Structural)]
pub enum HandScore {
    FiveKind,
    FourKind,
    FullHouse,
    ThreeKind,
    TwoPair,
    OnePair,
    Single,
}

/// A hand of five cards, its kind and its bid.
#[derive(Clone, Copy, Debug)]
pub struct Hand {
    pub cards: [u32; 5],
    pub score: HandScore,
    pub bid: u32,
}

/// The value of a card label: `A` 14, `K` 13, `Q` 12, `J` 11, `T` 10, a digit its value.
pub open spec fn card_value(c: char) -> Option<int> {
    if c == 'A' {
        Some(14)
    } else if c == 'K' {
        Some(13)
    } else if c == 'Q' {
        Some(12)
    } else if c == 'J' {
        Some(11)
    } else if c == 'T' {
        Some(10)
    } else if '0' <= c && c <= '9' {
        Some(c as int - '0' as int)
    } else {
        None
    }
}

/// The five card values `w` spells, when it is five labels.
pub open spec fn cards_of(w: Seq<char>) -> Option<Seq<u32>> {
    if (forall|i: int| 0 <= i < w.len() ==> #[trigger] card_value(w[i]) is Some) && w.len() == 5 {
        Some(Seq::new(5, |i: int| card_value(w[i]).unwrap() as u32))
    } else {
        None
    }
}

/// How many of `cards` have value `v`.
pub open spec fn count_value(cards: Seq<u32>, v: int, n: int) -> int
    decreases n,
{
    if n <= 0 {
        0
    } else {
        count_value(cards, v, n - 1) + (if cards[n - 1] == v {
            1int
        } else {
            0int
        })
    }
}

/// The number of cards of each value, jokers (value 1) set aside as zero.
pub open spec fn counts_without_jokers(cards: Seq<u32>) -> Seq<int> {
    Seq::new(15, |v: int| if v == 1 { 0 } else { count_value(cards, v, 5) })
}

/// The kind of a hand whose largest group, jokers added, has `best` cards and whose second
/// largest group has `next`.
pub open spec fn kind(best: int, next: int) -> HandScore {
    if best == 5 {
        HandScore::FiveKind
    } else if best == 4 {
        HandScore::FourKind
    } else if best == 3 && next == 2 {
        HandScore::FullHouse
    } else if best == 3 {
        HandScore::ThreeKind
    } else if best == 2 && next == 2 {
        HandScore::TwoPair
    } else if best == 2 {
        HandScore::OnePair
    } else {
        HandScore::Single
    }
}

/// The kind of `cards`, the jokers joining the largest group.
pub open spec fn hand_score(cards: Seq<u32>) -> HandScore {
    let sorted = counts_without_jokers(cards).sort();
    kind(sorted[14] + count_value(cards, 1, 5), sorted[13])
}

/// The strength of a kind, weakest 0.
pub open spec fn strength(s: HandScore) -> int {
    match s {
        HandScore::FiveKind => 6,
        HandScore::FourKind => 5,
        HandScore::FullHouse => 4,
        HandScore::ThreeKind => 3,
        HandScore::TwoPair => 2,
        HandScore::OnePair => 1,
        HandScore::Single => 0,
    }
}

/// The order key of a hand: by kind, then card by card.
pub open spec fn key_of(cards: Seq<u32>) -> int {
    strength(hand_score(cards)) * 759375 + cards[0] * 50625 + cards[1] * 3375 + cards[2] * 225
        + cards[3] * 15 + cards[4]
}

/// A line `cards bid`: the card values and the bid.
pub open spec fn hand_of(line: Seq<char>) -> Option<(Seq<u32>, u32)> {
    let ws = words(line);
    if ws.len() < 2 {
        None
    } else {
        match (cards_of(ws[0]), decimal(ws[1], u32::MAX as int)) {
            (Some(c), Some(b)) => Some((c, b as u32)),
            _ => None,
        }
    }
}

/// The hands of `ls`, when every line is one.
pub open spec fn hands_of(ls: Seq<Seq<char>>) -> Option<Seq<(Seq<u32>, u32)>>
    decreases ls.len(),
{
    if ls.len() == 0 {
        Some(Seq::empty())
    } else {
        match (hands_of(ls.drop_last()), hand_of(ls.last())) {
            (Some(v), Some(h)) => Some(v.push(h)),
            _ => None,
        }
    }
}

/// How many of the first `n` hands come before hand `i` in the ranking: a smaller key, or
/// an equal key and an earlier line.
pub open spec fn before_count(hs: Seq<(Seq<u32>, u32)>, i: int, n: int) -> int
    decreases n,
{
    if n <= 0 {
        0
    } else {
        before_count(hs, i, n - 1) + (if key_of(hs[n - 1].0) < key_of(hs[i].0) || (key_of(
            hs[n - 1].0,
        ) == key_of(hs[i].0) && n - 1 < i) {
            1int
        } else {
            0int
        })
    }
}

/// The total winnings of the first `n` hands: each bid times its rank.
pub open spec fn winnings(hs: Seq<(Seq<u32>, u32)>, n: int) -> int
    decreases n,
{
    if n <= 0 {
        0
    } else {
        winnings(hs, n - 1) + (before_count(hs, n - 1, hs.len() as int) + 1) * hs[n - 1].1
    }
}

/// The input with every `J` read as `1`, a joker.
pub open spec fn with_jokers(s: Seq<char>) -> Seq<char> {
    s.map_values(|c: char| if c == 'J' { '1' } else { c })
}

/// Reads one card label.
pub fn parse_card(c: char) -> (r: Option<u32>)
    ensures
        r matches Some(v) ==> card_value(c) == Some(v as int),
        r is None ==> card_value(c) is None,
{
    if c == 'A' {
        Some(14)
    } else if c == 'K' {
        Some(13)
    } else if c == 'Q' {
        Some(12)
    } else if c == 'J' {
        Some(11)
    } else if c == 'T' {
        Some(10)
    } else if '0' <= c && c <= '9' {
        Some(c as u32 - '0' as u32)
    } else {
        None
    }
}

/// Reads five card labels, `chars[range.0..range.1]`.
fn parse_cards(chars: &Vec<char>, range: (usize, usize)) -> (r: Option<[u32; 5]>)
    requires
        range.0 <= range.1 <= chars@.len(),
    ensures
        r matches Some(c) ==> cards_of(chars@.subrange(range.0 as int, range.1 as int)) == Some(
            c@,
        ),
        r is None ==> cards_of(chars@.subrange(range.0 as int, range.1 as int)) is None,
{
    let ghost w = chars@.subrange(range.0 as int, range.1 as int);
    let mut values: Vec<u32> = Vec::new();
    let mut i = range.0;
    while i < range.1
        invariant
            range.0 <= i <= range.1 <= chars@.len(),
            w == chars@.subrange(range.0 as int, range.1 as int),
            values@.len() == i - range.0,
            forall|k: int|
                0 <= k < values@.len() ==> card_value(w[k]) == Some(#[trigger] values@[k] as int),
        decreases range.1 - i,
    {
        match parse_card(chars[i]) {
            Some(v) => {
                values.push(v);
            },
            None => {
                assert(card_value(w[i - range.0]) is None);
                return None;
            },
        }
        i = i + 1;
    }
    if values.len() != 5 {
        return None;
    }
    let cards = [values[0], values[1], values[2], values[3], values[4]];
    assert(cards@ =~= Seq::new(5, |k: int| card_value(w[k]).unwrap() as u32));
    Some(cards)
}

/// Reads a bid, `chars[range.0..range.1]`.
fn parse_bid(chars: &Vec<char>, range: (usize, usize)) -> (r: Option<u32>)
    requires
        range.0 <= range.1 <= chars@.len(),
    ensures
        r matches Some(v) ==> decimal(chars@.subrange(range.0 as int, range.1 as int), u32::MAX as int)
            == Some(v as int),
        r is None ==> decimal(chars@.subrange(range.0 as int, range.1 as int), u32::MAX as int) is None,
{
    match decimal_in(chars, range.0, range.1, u32::MAX as u64) {
        Some(v) => Some(v as u32),
        None => None,
    }
}

proof fn lemma_count_step(cards: Seq<u32>, v: int, n: int)
    requires
        0 <= n,
    ensures
        0 <= count_value(cards, v, n) <= n,
    decreases n,
{
    if n > 0 {
        lemma_count_step(cards, v, n - 1);
    }
}

/// The kind of a hand of card values below 15, jokers (value 1) joining the largest group.
pub fn find_score(cards: &[u32; 5]) -> (r: HandScore)
    requires
        forall|i: int| 0 <= i < 5 ==> #[trigger] cards@[i] < 15,
    ensures
        r == hand_score(cards@),
{
    let mut counts: Vec<u64> = vec![0u64; 15];
    let mut k: usize = 0;
    while k < 5
        invariant
            k <= 5,
            counts@.len() == 15,
            forall|i: int| 0 <= i < 5 ==> #[trigger] cards@[i] < 15,
            forall|v: int| 0 <= v < 15 ==> #[trigger] counts@[v] as int == count_value(cards@, v, k as int),
        decreases 5 - k,
    {
        let card = cards[k] as usize;
        proof {
            lemma_count_step(cards@, card as int, k as int);
        }
        let c = counts[card];
        counts.set(card, c + 1);
        k = k + 1;
    }
    let jokers = counts[1];
    counts.set(1, 0);
    assert(counts@.map_values(|x: u64| x as int) =~= counts_without_jokers(cards@));
    sort_ascending(&mut counts);
    let best = counts[14];
    let next = counts[13];
    assert(best as int == counts_without_jokers(cards@).sort()[14]) by {
        assert(counts@.map_values(|x: u64| x as int)[14] == best as int);
    }
    assert(next as int == counts_without_jokers(cards@).sort()[13]) by {
        assert(counts@.map_values(|x: u64| x as int)[13] == next as int);
    }
    let total = match best.checked_add(jokers) {
        Some(t) => t,
        None => {
            return HandScore::Single;
        },
    };
    if total == 5 {
        HandScore::FiveKind
    } else if total == 4 {
        HandScore::FourKind
    } else if total == 3 && next == 2 {
        HandScore::FullHouse
    } else if total == 3 {
        HandScore::ThreeKind
    } else if total == 2 && next == 2 {
        HandScore::TwoPair
    } else if total == 2 {
        HandScore::OnePair
    } else {
        HandScore::Single
    }
}

/// A hand read from its line: cards below 15 and its kind found.
pub open spec fn hand_wf(h: Hand) -> bool {
    (forall|i: int| 0 <= i < 5 ==> #[trigger] h.cards@[i] < 15) && h.score == hand_score(h.cards@)
}

pub open spec fn hands_view(hands: Seq<Hand>) -> Seq<(Seq<u32>, u32)> {
    hands.map_values(|h: Hand| (h.cards@, h.bid))
}

/// The order key of `hand`: weaker kinds first, then card by card.
pub fn sort_key(hand: &Hand) -> (r: u64)
    requires
        hand_wf(*hand),
    ensures
        r == key_of(hand.cards@),
{
    let s: u64 = match hand.score {
        HandScore::FiveKind => 6,
        HandScore::FourKind => 5,
        HandScore::FullHouse => 4,
        HandScore::ThreeKind => 3,
        HandScore::TwoPair => 2,
        HandScore::OnePair => 1,
        HandScore::Single => 0,
    };
    let c = hand.cards;
    assert(c@[0] < 15 && c@[1] < 15 && c@[2] < 15 && c@[3] < 15 && c@[4] < 15);
    s * 759375 + c[0] as u64 * 50625 + c[1] as u64 * 3375 + c[2] as u64 * 225 + c[3] as u64 * 15
        + c[4] as u64
}

/// Reads one line, five card labels and a bid.
pub fn parse_input_line(line: &Vec<char>) -> (r: Option<Hand>)
    ensures
        r matches Some(h) ==> hand_of(line@) == Some((h.cards@, h.bid)) && hand_wf(h),
        r is None ==> hand_of(line@) is None,
{
    let parts = word_ranges(line);
    if parts.len() < 2 {
        return None;
    }
    let cards = parse_cards(line, parts[0]);
    let bid = parse_bid(line, parts[1]);
    match (cards, bid) {
        (Some(cards), Some(bid)) => {
            assert forall|i: int| 0 <= i < 5 implies #[trigger] cards@[i] < 15 by {
                let w = line@.subrange(parts@[0].0 as int, parts@[0].1 as int);
                assert(card_value(w[i]) is Some);
            }
            let score = find_score(&cards);
            Some(Hand { cards, score, bid })
        },
        _ => None,
    }
}

proof fn lemma_hands_prefix(ls: Seq<Seq<char>>, k: int)
    requires
        0 <= k <= ls.len(),
        hands_of(ls.take(k)) is None,
    ensures
        hands_of(ls) is None,
    decreases ls.len() - k,
{
    if k < ls.len() {
        assert(ls.take(k + 1).drop_last() =~= ls.take(k));
        lemma_hands_prefix(ls, k + 1);
    } else {
        assert(ls.take(k) =~= ls);
    }
}

/// Reads one hand per line of `chars`.
fn parse_lines(chars: &Vec<char>) -> (r: Option<Vec<Hand>>)
    ensures
        r is Some <==> hands_of(lines(chars@)) is Some,
        r matches Some(v) ==> hands_view(v@) == hands_of(lines(chars@)).unwrap() && forall|i: int|
            0 <= i < v@.len() ==> hand_wf(#[trigger] v@[i]),
{
    let ranges = line_ranges(chars);
    let ghost ls = lines(chars@);
    let mut out: Vec<Hand> = Vec::new();
    let mut k: usize = 0;
    assert(ls.take(0) =~= Seq::<Seq<char>>::empty());
    assert(hands_view(out@) =~= Seq::<(Seq<u32>, u32)>::empty());
    while k < ranges.len()
        invariant
            ls == lines(chars@),
            ranges@.len() == ls.len(),
            forall|j: int|
                0 <= j < ranges@.len() ==> (#[trigger] ranges@[j]).0 <= ranges@[j].1
                    <= chars@.len(),
            forall|j: int|
                0 <= j < ranges@.len() ==> chars@.subrange(ranges@[j].0 as int, ranges@[j].1 as int)
                    == #[trigger] ls[j],
            k <= ranges@.len(),
            hands_of(ls.take(k as int)) == Some(hands_view(out@)),
            forall|i: int| 0 <= i < out@.len() ==> hand_wf(#[trigger] out@[i]),
        decreases ranges@.len() - k,
    {
        assert(ls.take(k + 1).drop_last() =~= ls.take(k as int));
        assert(ls.take(k + 1).last() == ls[k as int]);
        let line = sub_chars(chars, ranges[k]);
        let ghost before = out@;
        match parse_input_line(&line) {
            Some(h) => {
                out.push(h);
                assert(hands_view(out@) =~= hands_view(before).push((h.cards@, h.bid)));
            },
            None => {
                proof {
                    lemma_hands_prefix(ls, k + 1);
                }
                return None;
            },
        }
        k = k + 1;
    }
    assert(ls.take(k as int) =~= ls);
    Some(out)
}

/// Reads one hand per line; `None` when a line is not five card labels and a bid.
pub fn parse_input(input: &str) -> (r: Option<Vec<Hand>>)
    ensures
        r is Some <==> hands_of(lines(input@)) is Some,
        r matches Some(v) ==> hands_view(v@) == hands_of(lines(input@)).unwrap() && forall|i: int|
            0 <= i < v@.len() ==> hand_wf(#[trigger] v@[i]),
{
    let chars = chars_of(input);
    parse_lines(&chars)
}

proof fn lemma_before_bounds(hs: Seq<(Seq<u32>, u32)>, i: int, n: int)
    requires
        0 <= n,
    ensures
        0 <= before_count(hs, i, n) <= n,
    decreases n,
{
    if n > 0 {
        lemma_before_bounds(hs, i, n - 1);
    }
}

proof fn lemma_winnings_grow(hs: Seq<(Seq<u32>, u32)>, k: int, n: int)
    requires
        0 <= k <= n,
    ensures
        0 <= winnings(hs, k) <= winnings(hs, n),
    decreases n - k,
{
    if k < n {
        lemma_winnings_grow(hs, k, n - 1);
        lemma_before_bounds(hs, n - 1, hs.len() as int);
        assert((before_count(hs, n - 1, hs.len() as int) + 1) * hs[n - 1].1 >= 0) by (nonlinear_arith)
            requires
                before_count(hs, n - 1, hs.len() as int) >= 0,
                hs[n - 1].1 >= 0,
        ;
    } else {
        lemma_winnings_nonneg(hs, k);
    }
}

proof fn lemma_winnings_nonneg(hs: Seq<(Seq<u32>, u32)>, n: int)
    ensures
        winnings(hs, n) >= 0,
    decreases n,
{
    if n > 0 {
        lemma_winnings_nonneg(hs, n - 1);
        lemma_before_bounds(hs, n - 1, hs.len() as int);
        assert((before_count(hs, n - 1, hs.len() as int) + 1) * hs[n - 1].1 >= 0) by (nonlinear_arith)
            requires
                before_count(hs, n - 1, hs.len() as int) >= 0,
                hs[n - 1].1 >= 0,
        ;
    }
}

/// The total winnings of `hands`: each bid times the hand's rank from the weakest, equal
/// hands ranked in line order; `None` when it exceeds `u32::MAX`.
pub fn total_winnings(hands: &Vec<Hand>) -> (r: Option<u32>)
    requires
        forall|i: int| 0 <= i < hands@.len() ==> hand_wf(#[trigger] hands@[i]),
    ensures
        r is Some <==> winnings(hands_view(hands@), hands@.len() as int) <= u32::MAX,
        r matches Some(v) ==> winnings(hands_view(hands@), hands@.len() as int) == v as int,
{
    let ghost hs = hands_view(hands@);
    let n = hands.len();
    let mut keys: Vec<u64> = Vec::new();
    let mut k: usize = 0;
    while k < n
        invariant
            hs == hands_view(hands@),
            n == hands@.len(),
            forall|i: int| 0 <= i < hands@.len() ==> hand_wf(#[trigger] hands@[i]),
            k <= n,
            keys@.len() == k,
            forall|i: int| 0 <= i < k ==> #[trigger] keys@[i] as int == key_of(hs[i].0),
        decreases n - k,
    {
        keys.push(sort_key(&hands[k]));
        k = k + 1;
    }
    let mut total: u64 = 0;
    let mut i: usize = 0;
    while i < n
        invariant
            hs == hands_view(hands@),
            n == hands@.len(),
            hs.len() == n,
            keys@.len() == n,
            forall|j: int| 0 <= j < n ==> #[trigger] keys@[j] as int == key_of(hs[j].0),
            i <= n,
            total as int == winnings(hs, i as int),
            total <= u32::MAX,
        decreases n - i,
    {
        let mut count: u64 = 0;
        let mut j: usize = 0;
        while j < n
            invariant
                hs.len() == n,
                keys@.len() == n,
                forall|m: int| 0 <= m < n ==> #[trigger] keys@[m] as int == key_of(hs[m].0),
                i < n,
                j <= n,
                count as int == before_count(hs, i as int, j as int),
                count <= j,
                j > i ==> count < j,
            decreases n - j,
        {
            if keys[j] < keys[i] || (keys[j] == keys[i] && j < i) {
                count = count + 1;
            }
            j = j + 1;
        }
        proof {
            lemma_winnings_grow(hs, i + 1, n as int);
        }
        assert(hs[i as int].1 == hands@[i as int].bid);
        let term = match (count + 1).checked_mul(hands[i].bid as u64) {
            Some(t) => t,
            None => {
                return None;
            },
        };
        if term > u32::MAX as u64 || total + term > u32::MAX as u64 {
            return None;
        }
        total = total + term;
        i = i + 1;
    }
    Some(total as u32)
}

/// The total winnings of the hands of `input`; `None` when a line is not a hand or the total
/// exceeds `u32::MAX`.
pub fn part_one(input: &str) -> (r: Option<u32>)
    ensures
        r is Some <==> (hands_of(lines(input@)) matches Some(hs) && winnings(hs, hs.len() as int)
            <= u32::MAX),
        r matches Some(v) ==> ({
            let hs = hands_of(lines(input@)).unwrap();
            winnings(hs, hs.len() as int) == v as int
        }),
{
    let hands = match parse_input(input) {
        Some(h) => h,
        None => {
            return None;
        },
    };
    total_winnings(&hands)
}

/// `chars` with every `J` replaced by `1`.
fn jokers_in(chars: &Vec<char>) -> (r: Vec<char>)
    ensures
        r@ == with_jokers(chars@),
{
    let mut out: Vec<char> = Vec::new();
    let mut k: usize = 0;
    while k < chars.len()
        invariant
            k <= chars@.len(),
            out@ == with_jokers(chars@.take(k as int)),
        decreases chars@.len() - k,
    {
        let c = chars[k];
        out.push(if c == 'J' {
            '1'
        } else {
            c
        });
        k = k + 1;
        assert(out@ =~= with_jokers(chars@.take(k as int)));
    }
    assert(chars@.take(k as int) =~= chars@);
    out
}

/// The total winnings when every `J` is a joker, weakest of the cards but joining the
/// largest group; `None` as for [`part_one`].
pub fn part_two(input: &str) -> (r: Option<u32>)
    ensures
        r is Some <==> (hands_of(lines(with_jokers(input@))) matches Some(hs) && winnings(
            hs,
            hs.len() as int,
        ) <= u32::MAX),
        r matches Some(v) ==> ({
            let hs = hands_of(lines(with_jokers(input@))).unwrap();
            winnings(hs, hs.len() as int) == v as int
        }),
{
    let chars = chars_of(input);
    let replaced = jokers_in(&chars);
    let hands = match parse_lines(&replaced) {
        Some(h) => h,
        None => {
            return None;
        },
    };
    total_winnings(&hands)
}

} // verus!
