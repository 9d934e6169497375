// Trebuchet calibration: the first and last digit of each line, spelled digits optionally
// counting.
use vstd::prelude::*;

use crate::parse::{chars_of, is_digit, line_ranges, lines, sub_chars};

verus! {

/// The value of the decimal digit at position `i` of `line`, if there is one.
pub open spec fn digit_at(line: Seq<char>, i: int) -> Option<int> {
    if 0 <= i < line.len() && is_digit(line[i]) {
        Some(line[i] as int - '0' as int)
    } else {
        None
    }
}

/// `word` stands in `line` from position `i` on.
pub open spec fn spelled_at(line: Seq<char>, i: int, word: Seq<char>) -> bool {
    0 <= i && i + word.len() <= line.len() && line.subrange(i, i + word.len()) == word
}

/// The digit whose English name starts at position `i` of `line`, if one does.
pub open spec fn alpha_at(line: Seq<char>, i: int) -> Option<int> {
    if spelled_at(line, i, seq!['o', 'n', 'e']) {
        Some(1)
    } else if spelled_at(line, i, seq!['t', 'w', 'o']) {
        Some(2)
    } else if spelled_at(line, i, seq!['t', 'h', 'r', 'e', 'e']) {
        Some(3)
    } else if spelled_at(line, i, seq!['f', 'o', 'u', 'r']) {
        Some(4)
    } else if spelled_at(line, i, seq!['f', 'i', 'v', 'e']) {
        Some(5)
    } else if spelled_at(line, i, seq!['s', 'i', 'x']) {
        Some(6)
    } else if spelled_at(line, i, seq!['s', 'e', 'v', 'e', 'n']) {
        Some(7)
    } else if spelled_at(line, i, seq!['e', 'i', 'g', 'h', 't']) {
        Some(8)
    } else if spelled_at(line, i, seq!['n', 'i', 'n', 'e']) {
        Some(9)
    } else {
        None
    }
}

/// The digit read at position `i`: a decimal digit, or (when `alpha` holds) a spelled one.
pub open spec fn token_at(line: Seq<char>, i: int, alpha: bool) -> Option<int> {
    match digit_at(line, i) {
        Some(d) => Some(d),
        None => if alpha {
            alpha_at(line, i)
        } else {
            None
        },
    }
}

/// The first digit read at a position below `n`.
pub open spec fn first_in(line: Seq<char>, alpha: bool, n: int) -> Option<int>
    decreases n,
{
    if n <= 0 {
        None
    } else {
        match first_in(line, alpha, n - 1) {
            Some(t) => Some(t),
            None => token_at(line, n - 1, alpha),
        }
    }
}

/// The last digit read at a position below `n`.
pub open spec fn last_in(line: Seq<char>, alpha: bool, n: int) -> Option<int>
    decreases n,
{
    if n <= 0 {
        None
    } else {
        match token_at(line, n - 1, alpha) {
            Some(t) => Some(t),
            None => last_in(line, alpha, n - 1),
        }
    }
}

/// The calibration value of a line: its first digit read, times ten, plus its last; `None`
/// when no digit is read.
pub open spec fn calibration(line: Seq<char>, alpha: bool) -> Option<int> {
    match (first_in(line, alpha, line.len() as int), last_in(line, alpha, line.len() as int)) {
        (Some(n), Some(m)) => Some(10 * n + m),
        _ => None,
    }
}

/// The sum of the calibration values of `ls`, when each line has one.
pub open spec fn calibration_sum(ls: Seq<Seq<char>>, alpha: bool) -> Option<int>
    decreases ls.len(),
{
    if ls.len() == 0 {
        Some(0)
    } else {
        match (calibration_sum(ls.drop_last(), alpha), calibration(ls.last(), alpha)) {
            (Some(a), Some(b)) => Some(a + b),
            _ => None,
        }
    }
}

/// Reads the decimal digit at position `i` of `line`.
fn parse_digit(line: &Vec<char>, i: usize) -> (r: Option<u32>)
    ensures
        r matches Some(v) ==> digit_at(line@, i as int) == Some(v as int),
        r is None ==> digit_at(line@, i as int) is None,
{
    if i < line.len() && '0' <= line[i] && line[i] <= '9' {
        Some(line[i] as u32 - '0' as u32)
    } else {
        None
    }
}

/// Whether `word` stands in `line` from position `i` on.
fn spelled(line: &Vec<char>, i: usize, word: &[char]) -> (r: bool)
    ensures
        r == spelled_at(line@, i as int, word@),
{
    if i > line.len() || word.len() > line.len() - i {
        return false;
    }
    let mut k: usize = 0;
    while k < word.len()
        invariant
            i + word@.len() <= line.len() as int,
            line.len() == line@.len(),
            k <= word@.len(),
            forall|j: int| 0 <= j < k ==> line@[i + j] == word@[j],
        decreases word@.len() - k,
    {
        if line[i + k] != word[k] {
            assert(line@.subrange(i as int, i + word@.len())[k as int] != word@[k as int]);
            return false;
        }
        k = k + 1;
    }
    assert(line@.subrange(i as int, i + word@.len()) =~= word@);
    true
}

/// Reads the digit whose English name starts at position `i` of `line`.
fn parse_alpha(line: &Vec<char>, i: usize) -> (r: Option<u32>)
    ensures
        r matches Some(v) ==> alpha_at(line@, i as int) == Some(v as int),
        r is None ==> alpha_at(line@, i as int) is None,
{
    let one = ['o', 'n', 'e'];
    let two = ['t', 'w', 'o'];
    let three = ['t', 'h', 'r', 'e', 'e'];
    let four = ['f', 'o', 'u', 'r'];
    let five = ['f', 'i', 'v', 'e'];
    let six = ['s', 'i', 'x'];
    let seven = ['s', 'e', 'v', 'e', 'n'];
    let eight = ['e', 'i', 'g', 'h', 't'];
    let nine = ['n', 'i', 'n', 'e'];
    assert(one@ =~= seq!['o', 'n', 'e']);
    assert(two@ =~= seq!['t', 'w', 'o']);
    assert(three@ =~= seq!['t', 'h', 'r', 'e', 'e']);
    assert(four@ =~= seq!['f', 'o', 'u', 'r']);
    assert(five@ =~= seq!['f', 'i', 'v', 'e']);
    assert(six@ =~= seq!['s', 'i', 'x']);
    assert(seven@ =~= seq!['s', 'e', 'v', 'e', 'n']);
    assert(eight@ =~= seq!['e', 'i', 'g', 'h', 't']);
    assert(nine@ =~= seq!['n', 'i', 'n', 'e']);
    if spelled(line, i, &one) {
        Some(1)
    } else if spelled(line, i, &two) {
        Some(2)
    } else if spelled(line, i, &three) {
        Some(3)
    } else if spelled(line, i, &four) {
        Some(4)
    } else if spelled(line, i, &five) {
        Some(5)
    } else if spelled(line, i, &six) {
        Some(6)
    } else if spelled(line, i, &seven) {
        Some(7)
    } else if spelled(line, i, &eight) {
        Some(8)
    } else if spelled(line, i, &nine) {
        Some(9)
    } else {
        None
    }
}

proof fn lemma_token_range(line: Seq<char>, i: int, alpha: bool)
    ensures
        token_at(line, i, alpha) matches Some(t) ==> 0 <= t <= 9,
{
}

proof fn lemma_first_last_range(line: Seq<char>, alpha: bool, n: int)
    ensures
        first_in(line, alpha, n) matches Some(t) ==> 0 <= t <= 9,
        last_in(line, alpha, n) matches Some(t) ==> 0 <= t <= 9,
        first_in(line, alpha, n) is Some <==> last_in(line, alpha, n) is Some,
    decreases n,
{
    if n > 0 {
        lemma_first_last_range(line, alpha, n - 1);
        lemma_token_range(line, n - 1, alpha);
    }
}

/// The calibration value of `line`: ten times its first digit plus its last, spelled digits
/// counting when `include_alpha` holds; `None` when it has no digit.
pub fn solve(line: &Vec<char>, include_alpha: bool) -> (r: Option<u32>)
    ensures
        r matches Some(v) ==> calibration(line@, include_alpha) == Some(v as int),
        r is None ==> calibration(line@, include_alpha) is None,
{
    let mut n: Option<u32> = None;
    let mut m: Option<u32> = None;
    let mut i: usize = 0;
    while i < line.len()
        invariant
            i <= line@.len(),
            n matches Some(v) ==> first_in(line@, include_alpha, i as int) == Some(v as int),
            n is None ==> first_in(line@, include_alpha, i as int) is None,
            m matches Some(v) ==> last_in(line@, include_alpha, i as int) == Some(v as int),
            m is None ==> last_in(line@, include_alpha, i as int) is None,
        decreases line@.len() - i,
    {
        let mut token = parse_digit(line, i);
        if include_alpha && token.is_none() {
            token = parse_alpha(line, i);
        }
        n = match n {
            Some(v) => Some(v),
            None => token,
        };
        m = match token {
            Some(v) => Some(v),
            None => m,
        };
        i = i + 1;
    }
    proof {
        lemma_first_last_range(line@, include_alpha, line@.len() as int);
    }
    match (n, m) {
        (Some(a), Some(b)) => Some(10 * a + b),
        _ => None,
    }
}

/// The calibration value of `line`, decimal digits alone counting.
pub fn solve_without_alpha(line: &Vec<char>) -> (r: Option<u32>)
    ensures
        r matches Some(v) ==> calibration(line@, false) == Some(v as int),
        r is None ==> calibration(line@, false) is None,
{
    solve(line, false)
}

/// The calibration value of `line`, spelled digits counting too.
pub fn solve_with_alpha(line: &Vec<char>) -> (r: Option<u32>)
    ensures
        r matches Some(v) ==> calibration(line@, true) == Some(v as int),
        r is None ==> calibration(line@, true) is None,
{
    solve(line, true)
}

proof fn lemma_sum_prefix(ls: Seq<Seq<char>>, alpha: bool, k: int)
    requires
        0 <= k <= ls.len(),
    ensures
        calibration_sum(ls.take(k), alpha) is None ==> calibration_sum(ls, alpha) is None,
        calibration_sum(ls.take(k), alpha) matches Some(a) ==> (calibration_sum(ls, alpha)
            matches Some(b) ==> a <= b),
        calibration_sum(ls.take(k), alpha) matches Some(a) ==> a >= 0,
    decreases ls.len() - k,
{
    lemma_sum_nonneg(ls.take(k), alpha);
    if k < ls.len() {
        assert(ls.take(k + 1).drop_last() =~= ls.take(k));
        lemma_sum_prefix(ls, alpha, k + 1);
        lemma_first_last_range(ls[k], alpha, ls[k].len() as int);
    } else {
        assert(ls.take(k) =~= ls);
        lemma_sum_nonneg(ls, alpha);
    }
}

proof fn lemma_sum_nonneg(ls: Seq<Seq<char>>, alpha: bool)
    ensures
        calibration_sum(ls, alpha) matches Some(a) ==> a >= 0,
    decreases ls.len(),
{
    if ls.len() > 0 {
        lemma_sum_nonneg(ls.drop_last(), alpha);
        lemma_first_last_range(ls.last(), alpha, ls.last().len() as int);
    }
}

/// The sum of the calibration values of the lines of `input`; `None` when a line has no
/// digit or the sum exceeds `u32::MAX`.
fn calibration_total(input: &str, include_alpha: bool) -> (r: Option<u32>)
    ensures
        r is Some <==> (calibration_sum(lines(input@), include_alpha) matches Some(t) && t
            <= u32::MAX),
        r matches Some(v) ==> calibration_sum(lines(input@), include_alpha) == Some(v as int),
{
    let chars = chars_of(input);
    let ranges = line_ranges(&chars);
    let ghost ls = lines(chars@);
    let mut total: u32 = 0;
    let mut k: usize = 0;
    assert(ls.take(0) =~= Seq::<Seq<char>>::empty());
    while k < ranges.len()
        invariant
            chars@ == input@,
            ls == lines(chars@),
            ranges@.len() == ls.len(),
            forall|j: int|
                0 <= j < ranges@.len() ==> (#[trigger] ranges@[j]).0 <= ranges@[j].1
                    <= chars@.len(),
            forall|j: int|
                0 <= j < ranges@.len() ==> chars@.subrange(ranges@[j].0 as int, ranges@[j].1 as int)
                    == #[trigger] ls[j],
            k <= ranges@.len(),
            calibration_sum(ls.take(k as int), include_alpha) == Some(total as int),
        decreases ranges@.len() - k,
    {
        assert(ls.take(k + 1).drop_last() =~= ls.take(k as int));
        assert(ls.take(k + 1).last() == ls[k as int]);
        let line = sub_chars(&chars, ranges[k]);
        match solve(&line, include_alpha) {
            Some(v) => match total.checked_add(v) {
                Some(t) => {
                    total = t;
                },
                None => {
                    proof {
                        lemma_sum_prefix(ls, include_alpha, k + 1);
                    }
                    return None;
                },
            },
            None => {
                proof {
                    lemma_sum_prefix(ls, include_alpha, k + 1);
                }
                return None;
            },
        }
        k = k + 1;
    }
    assert(ls.take(k as int) =~= ls);
    Some(total)
}

/// The sum of the calibration values of the lines of `input`, decimal digits alone
/// counting; `None` when a line has no digit or the sum exceeds `u32::MAX`.
pub fn part_one(input: &str) -> (r: Option<u32>)
    ensures
        r is Some <==> (calibration_sum(lines(input@), false) matches Some(t) && t <= u32::MAX),
        r matches Some(v) ==> calibration_sum(lines(input@), false) == Some(v as int),
{
    calibration_total(input, false)
}

/// The sum of the calibration values of the lines of `input`, spelled digits counting too;
/// `None` when a line has no digit or the sum exceeds `u32::MAX`.
pub fn part_two(input: &str) -> (r: Option<u32>)
    ensures
        r is Some <==> (calibration_sum(lines(input@), true) matches Some(t) && t <= u32::MAX),
        r matches Some(v) ==> calibration_sum(lines(input@), true) == Some(v as int),
{
    calibration_total(input, true)
}

} // verus!
