// Syntax scoring: matching chunk brackets, scoring corrupted and incomplete lines.
use vstd::prelude::*;

use crate::parse::{chars_of, line_ranges, lines};
use crate::sorting::sort_ascending;

verus! {

/// The four kinds of chunk bracket: `()`, `[]`, `{}` and `<>`.
#[derive(Clone, Copy, Debug, PartialEq, Eq, Structural)]
pub enum ChunkDelimiterSymbol {
    A,
    B,
    C,
    D,
}

/// An opening or closing chunk bracket.
#[derive(Clone, Copy, Debug, PartialEq, Eq, Structural)]
pub enum ChunkDelimiter {
    Open(ChunkDelimiterSymbol),
    Close(ChunkDelimiterSymbol),
}

pub open spec fn delimiter_of(c: char) -> Option<ChunkDelimiter> {
    if c == '(' {
        Some(ChunkDelimiter::Open(ChunkDelimiterSymbol::A))
    } else if c == '[' {
        Some(ChunkDelimiter::Open(ChunkDelimiterSymbol::B))
    } else if c == '{' {
        Some(ChunkDelimiter::Open(ChunkDelimiterSymbol::C))
    } else if c == '<' {
        Some(ChunkDelimiter::Open(ChunkDelimiterSymbol::D))
    } else if c == ')' {
        Some(ChunkDelimiter::Close(ChunkDelimiterSymbol::A))
    } else if c == ']' {
        Some(ChunkDelimiter::Close(ChunkDelimiterSymbol::B))
    } else if c == '}' {
        Some(ChunkDelimiter::Close(ChunkDelimiterSymbol::C))
    } else if c == '>' {
        Some(ChunkDelimiter::Close(ChunkDelimiterSymbol::D))
    } else {
        None
    }
}

/// The brackets of a line, when each of its characters is one.
pub open spec fn line_delimiters(line: Seq<char>) -> Option<Seq<ChunkDelimiter>>
    decreases line.len(),
{
    if line.len() == 0 {
        Some(Seq::empty())
    } else {
        match (line_delimiters(line.drop_last()), delimiter_of(line.last())) {
            (Some(s), Some(d)) => Some(s.push(d)),
            _ => None,
        }
    }
}

/// The brackets of each line, when every line consists of brackets.
pub open spec fn all_delimiters(ls: Seq<Seq<char>>) -> Option<Seq<Seq<ChunkDelimiter>>>
    decreases ls.len(),
{
    if ls.len() == 0 {
        Some(Seq::empty())
    } else {
        match (all_delimiters(ls.drop_last()), line_delimiters(ls.last())) {
            (Some(s), Some(d)) => Some(s.push(d)),
            _ => None,
        }
    }
}

/// Reads `s` left to right: the chunks still open at its end, or the first closing bracket
/// that does not match the chunk it would close.
pub open spec fn scan(s: Seq<ChunkDelimiter>) -> Result<Seq<ChunkDelimiterSymbol>, ChunkDelimiterSymbol>
    decreases s.len(),
{
    if s.len() == 0 {
        Ok(Seq::empty())
    } else {
        match scan(s.drop_last()) {
            Err(t) => Err(t),
            Ok(open) => match s.last() {
                ChunkDelimiter::Open(t) => Ok(open.push(t)),
                ChunkDelimiter::Close(t) => if open.len() > 0 && open.last() == t {
                    Ok(open.drop_last())
                } else {
                    Err(t)
                },
            },
        }
    }
}

pub open spec fn error_points(t: ChunkDelimiterSymbol) -> int {
    match t {
        ChunkDelimiterSymbol::A => 3,
        ChunkDelimiterSymbol::B => 57,
        ChunkDelimiterSymbol::C => 1197,
        ChunkDelimiterSymbol::D => 25137,
    }
}

pub open spec fn valid_points(t: ChunkDelimiterSymbol) -> int {
    match t {
        ChunkDelimiterSymbol::A => 1,
        ChunkDelimiterSymbol::B => 2,
        ChunkDelimiterSymbol::C => 3,
        ChunkDelimiterSymbol::D => 4,
    }
}

/// Closes the chunks of `open` from the innermost out, starting from the score `acc`:
/// each closing multiplies the score by five and adds the bracket's points.
pub open spec fn completion_fold(acc: int, open: Seq<ChunkDelimiterSymbol>) -> int
    decreases open.len(),
{
    if open.len() == 0 {
        acc
    } else {
        completion_fold(acc * 5 + valid_points(open.last()), open.drop_last())
    }
}

/// Whether a line is incomplete (rather than corrupted), with its completion score or its
/// syntax error score.
pub open spec fn line_result(s: Seq<ChunkDelimiter>) -> (bool, int) {
    match scan(s) {
        Err(t) => (false, error_points(t)),
        Ok(open) => (true, completion_fold(0, open)),
    }
}

/// The sum of the syntax error scores of the corrupted lines.
pub open spec fn error_total(ls: Seq<Seq<ChunkDelimiter>>) -> int
    decreases ls.len(),
{
    if ls.len() == 0 {
        0
    } else {
        error_total(ls.drop_last()) + (if line_result(ls.last()).0 {
            0
        } else {
            line_result(ls.last()).1
        })
    }
}

/// The completion scores of the incomplete lines, in order.
pub open spec fn completion_scores(ls: Seq<Seq<ChunkDelimiter>>) -> Seq<int>
    decreases ls.len(),
{
    if ls.len() == 0 {
        Seq::empty()
    } else {
        let rest = completion_scores(ls.drop_last());
        if line_result(ls.last()).0 {
            rest.push(line_result(ls.last()).1)
        } else {
            rest
        }
    }
}

/// Reads one character as a bracket.
pub fn parse_input_char(c: char) -> (r: Option<ChunkDelimiter>)
    ensures
        r == delimiter_of(c),
{
    match c {
        '(' => Some(ChunkDelimiter::Open(ChunkDelimiterSymbol::A)),
        '[' => Some(ChunkDelimiter::Open(ChunkDelimiterSymbol::B)),
        '{' => Some(ChunkDelimiter::Open(ChunkDelimiterSymbol::C)),
        '<' => Some(ChunkDelimiter::Open(ChunkDelimiterSymbol::D)),
        ')' => Some(ChunkDelimiter::Close(ChunkDelimiterSymbol::A)),
        ']' => Some(ChunkDelimiter::Close(ChunkDelimiterSymbol::B)),
        '}' => Some(ChunkDelimiter::Close(ChunkDelimiterSymbol::C)),
        '>' => Some(ChunkDelimiter::Close(ChunkDelimiterSymbol::D)),
        _ => None,
    }
}

proof fn lemma_line_delimiters_prefix(line: Seq<char>, k: int)
    requires
        0 <= k <= line.len(),
        line_delimiters(line.take(k)) is None,
    ensures
        line_delimiters(line) is None,
    decreases line.len() - k,
{
    if k < line.len() {
        assert(line.take(k + 1).drop_last() =~= line.take(k));
        lemma_line_delimiters_prefix(line, k + 1);
    } else {
        assert(line.take(k) =~= line);
    }
}

proof fn lemma_all_delimiters_prefix(ls: Seq<Seq<char>>, k: int)
    requires
        0 <= k <= ls.len(),
        all_delimiters(ls.take(k)) is None,
    ensures
        all_delimiters(ls) is None,
    decreases ls.len() - k,
{
    if k < ls.len() {
        assert(ls.take(k + 1).drop_last() =~= ls.take(k));
        lemma_all_delimiters_prefix(ls, k + 1);
    } else {
        assert(ls.take(k) =~= ls);
    }
}

/// Reads the line `chars[range.0..range.1]` as brackets; `None` when a character is not one.
pub fn parse_input_line(chars: &Vec<char>, range: (usize, usize)) -> (r: Option<Vec<ChunkDelimiter>>)
    requires
        range.0 <= range.1 <= chars@.len(),
    ensures
        r matches Some(v) ==> line_delimiters(chars@.subrange(range.0 as int, range.1 as int))
            == Some(v@),
        r is None ==> line_delimiters(chars@.subrange(range.0 as int, range.1 as int)) is None,
{
    let ghost line = chars@.subrange(range.0 as int, range.1 as int);
    let mut out: Vec<ChunkDelimiter> = Vec::new();
    let mut i = range.0;
    assert(line.take(0) =~= Seq::<char>::empty());
    while i < range.1
        invariant
            range.0 <= i <= range.1 <= chars@.len(),
            line == chars@.subrange(range.0 as int, range.1 as int),
            line_delimiters(line.take(i - range.0)) == Some(out@),
        decreases range.1 - i,
    {
        let ghost k = i - range.0;
        assert(line.take(k + 1).drop_last() =~= line.take(k));
        assert(line.take(k + 1).last() == chars@[i as int]);
        match parse_input_char(chars[i]) {
            Some(d) => {
                out.push(d);
            },
            None => {
                proof {
                    lemma_line_delimiters_prefix(line, k + 1);
                }
                return None;
            },
        }
        i = i + 1;
    }
    assert(line.take(i - range.0) =~= line);
    Some(out)
}

/// Reads every line of `input` as brackets; `None` when a character is not one.
pub fn parse_input(input: &str) -> (r: Option<Vec<Vec<ChunkDelimiter>>>)
    ensures
        r is Some <==> all_delimiters(lines(input@)) is Some,
        r matches Some(v) ==> v@.len() == all_delimiters(lines(input@)).unwrap().len()
            && forall|i: int|
            0 <= i < v@.len() ==> (#[trigger] v@[i])@ == all_delimiters(lines(input@)).unwrap()[i],
{
    let chars = chars_of(input);
    let ranges = line_ranges(&chars);
    let ghost ls = lines(chars@);
    let mut out: Vec<Vec<ChunkDelimiter>> = Vec::new();
    let mut k: usize = 0;
    assert(ls.take(0) =~= Seq::<Seq<char>>::empty());
    while k < ranges.len()
        invariant
            chars@ == input@,
            ls == lines(chars@),
            ranges@.len() == ls.len(),
            forall|j: int|
                0 <= j < ranges@.len() ==> (#[trigger] ranges@[j]).0 <= ranges@[j].1
                    <= chars@.len(),
            forall|j: int|
                0 <= j < ranges@.len() ==> chars@.subrange(ranges@[j].0 as int, ranges@[j].1 as int)
                    == #[trigger] ls[j],
            k <= ranges@.len(),
            all_delimiters(ls.take(k as int)) is Some,
            out@.len() == all_delimiters(ls.take(k as int)).unwrap().len(),
            forall|j: int|
                0 <= j < out@.len() ==> (#[trigger] out@[j])@ == all_delimiters(
                    ls.take(k as int),
                ).unwrap()[j],
        decreases ranges@.len() - k,
    {
        assert(ls.take(k + 1).drop_last() =~= ls.take(k as int));
        assert(ls.take(k + 1).last() == ls[k as int]);
        match parse_input_line(&chars, ranges[k]) {
            Some(v) => {
                out.push(v);
            },
            None => {
                proof {
                    lemma_all_delimiters_prefix(ls, k + 1);
                }
                return None;
            },
        }
        k = k + 1;
    }
    assert(ls.take(k as int) =~= ls);
    Some(out)
}

/// The syntax error score of a closing bracket that does not match.
pub fn error_score(symbol: &ChunkDelimiterSymbol) -> (r: u32)
    ensures
        r == error_points(*symbol),
{
    match symbol {
        ChunkDelimiterSymbol::A => 3,
        ChunkDelimiterSymbol::B => 57,
        ChunkDelimiterSymbol::C => 1197,
        ChunkDelimiterSymbol::D => 25137,
    }
}

/// The points of one closing bracket in a completion score.
pub fn valid_score(symbol: &ChunkDelimiterSymbol) -> (r: u32)
    ensures
        r == valid_points(*symbol),
{
    match symbol {
        ChunkDelimiterSymbol::A => 1,
        ChunkDelimiterSymbol::B => 2,
        ChunkDelimiterSymbol::C => 3,
        ChunkDelimiterSymbol::D => 4,
    }
}

proof fn lemma_scan_error_stays(s: Seq<ChunkDelimiter>, k: int, t: ChunkDelimiterSymbol)
    requires
        0 <= k <= s.len(),
        scan(s.take(k)) == Err::<Seq<ChunkDelimiterSymbol>, ChunkDelimiterSymbol>(t),
    ensures
        scan(s) == Err::<Seq<ChunkDelimiterSymbol>, ChunkDelimiterSymbol>(t),
    decreases s.len() - k,
{
    if k < s.len() {
        assert(s.take(k + 1).drop_last() =~= s.take(k));
        lemma_scan_error_stays(s, k + 1, t);
    } else {
        assert(s.take(k) =~= s);
    }
}

proof fn lemma_fold_grows(acc: int, open: Seq<ChunkDelimiterSymbol>)
    requires
        acc >= 0,
    ensures
        completion_fold(acc, open) >= acc,
    decreases open.len(),
{
    if open.len() > 0 {
        lemma_fold_grows(acc * 5 + valid_points(open.last()), open.drop_last());
    }
}

/// Checks one line: `(false, score)` for a corrupted line with its syntax error score,
/// `(true, score)` for an incomplete one with its completion score; `None` when that
/// completion score exceeds `u64::MAX`.
pub fn solve(symbols: &[ChunkDelimiter]) -> (r: Option<(bool, u64)>)
    ensures
        r is None <==> (line_result(symbols@).0 && line_result(symbols@).1 > u64::MAX),
        r matches Some(p) ==> p.0 == line_result(symbols@).0 && p.1 as int == line_result(
            symbols@,
        ).1,
{
    let mut stack: Vec<ChunkDelimiterSymbol> = Vec::new();
    let mut i: usize = 0;
    assert(symbols@.take(0) =~= Seq::<ChunkDelimiter>::empty());
    while i < symbols.len()
        invariant
            i <= symbols@.len(),
            scan(symbols@.take(i as int)) == Ok::<Seq<ChunkDelimiterSymbol>, ChunkDelimiterSymbol>(
                stack@,
            ),
        decreases symbols@.len() - i,
    {
        assert(symbols@.take(i + 1).drop_last() =~= symbols@.take(i as int));
        assert(symbols@.take(i + 1).last() == symbols@[i as int]);
        match symbols[i] {
            ChunkDelimiter::Close(t) => {
                let matched = match stack.pop() {
                    Some(s) => s == t,
                    None => false,
                };
                if !matched {
                    proof {
                        lemma_scan_error_stays(symbols@, i + 1, t);
                    }
                    return Some((false, error_score(&t) as u64));
                }
            },
            ChunkDelimiter::Open(t) => {
                stack.push(t);
            },
        }
        i = i + 1;
    }
    assert(symbols@.take(i as int) =~= symbols@);
    let ghost open = stack@;
    let mut score: u64 = 0;
    loop
        invariant
            scan(symbols@) == Ok::<Seq<ChunkDelimiterSymbol>, ChunkDelimiterSymbol>(open),
            completion_fold(score as int, stack@) == completion_fold(0, open),
        ensures
            completion_fold(score as int, stack@) == completion_fold(0, open),
            stack@.len() == 0,
        decreases stack@.len(),
    {
        match stack.pop() {
            Some(symbol) => {
                let points = valid_score(&symbol) as u64;
                match score.checked_mul(5) {
                    Some(s) => match s.checked_add(points) {
                        Some(s) => {
                            score = s;
                        },
                        None => {
                            proof {
                                lemma_fold_grows(s + points, stack@);
                            }
                            return None;
                        },
                    },
                    None => {
                        proof {
                            lemma_fold_grows(score * 5 + points, stack@);
                        }
                        return None;
                    },
                }
            },
            None => {
                break ;
            },
        }
    }
    Some((true, score))
}

proof fn lemma_error_total_prefix(ls: Seq<Seq<ChunkDelimiter>>, k: int)
    requires
        0 <= k <= ls.len(),
    ensures
        0 <= error_total(ls.take(k)) <= error_total(ls),
    decreases ls.len() - k,
{
    lemma_error_total_nonneg(ls.take(k));
    if k < ls.len() {
        assert(ls.take(k + 1).drop_last() =~= ls.take(k));
        assert(ls.take(k + 1).last() == ls[k]);
        lemma_error_total_prefix(ls, k + 1);
        match scan(ls[k]) {
            Err(t) => {
                assert(line_result(ls[k]).1 >= 3);
            },
            Ok(_) => {},
        }
    } else {
        assert(ls.take(k) =~= ls);
        lemma_error_total_nonneg(ls);
    }
}

proof fn lemma_error_total_nonneg(ls: Seq<Seq<ChunkDelimiter>>)
    ensures
        error_total(ls) >= 0,
    decreases ls.len(),
{
    if ls.len() > 0 {
        lemma_error_total_nonneg(ls.drop_last());
    }
}

proof fn lemma_scores_prefix(ls: Seq<Seq<ChunkDelimiter>>, k: int)
    requires
        0 <= k <= ls.len(),
    ensures
        completion_scores(ls.take(k)).len() <= completion_scores(ls).len(),
        forall|j: int|
            0 <= j < completion_scores(ls.take(k)).len() ==> #[trigger] completion_scores(
                ls.take(k),
            )[j] == completion_scores(ls)[j],
    decreases ls.len() - k,
{
    if k < ls.len() {
        assert(ls.take(k + 1).drop_last() =~= ls.take(k));
        lemma_scores_prefix(ls, k + 1);
        let short = completion_scores(ls.take(k));
        let long = completion_scores(ls.take(k + 1));
        let full = completion_scores(ls);
        assert(short.len() <= long.len());
        assert forall|j: int| 0 <= j < short.len() implies #[trigger] short[j] == full[j] by {
            assert(short[j] == long[j]);
            assert(long[j] == full[j]);
        }
    } else {
        assert(ls.take(k) =~= ls);
    }
}

/// The sum of the syntax error scores of the corrupted lines of `input`; `None` when a
/// character is not a bracket or the sum exceeds `u64::MAX`.
pub fn part_one(input: &str) -> (r: Option<u64>)
    ensures
        r is Some <==> (all_delimiters(lines(input@)) matches Some(ls) && error_total(ls)
            <= u64::MAX),
        r matches Some(v) ==> error_total(all_delimiters(lines(input@)).unwrap()) == v as int,
{
    let parsed = match parse_input(input) {
        Some(p) => p,
        None => {
            return None;
        },
    };
    let ghost ls = all_delimiters(lines(input@)).unwrap();
    let mut total: u64 = 0;
    let mut k: usize = 0;
    assert(ls.take(0) =~= Seq::<Seq<ChunkDelimiter>>::empty());
    while k < parsed.len()
        invariant
            all_delimiters(lines(input@)) == Some(ls),
            parsed@.len() == ls.len(),
            forall|i: int| 0 <= i < parsed@.len() ==> (#[trigger] parsed@[i])@ == ls[i],
            k <= parsed@.len(),
            total as int == error_total(ls.take(k as int)),
        decreases parsed@.len() - k,
    {
        assert(ls.take(k + 1).drop_last() =~= ls.take(k as int));
        assert(ls.take(k + 1).last() == ls[k as int]);
        match solve(parsed[k].as_slice()) {
            Some((false, s)) => match total.checked_add(s) {
                Some(t) => {
                    total = t;
                },
                None => {
                    proof {
                        lemma_error_total_prefix(ls, k + 1);
                    }
                    return None;
                },
            },
            _ => {},
        }
        k = k + 1;
    }
    assert(ls.take(k as int) =~= ls);
    Some(total)
}

/// The middle completion score of the incomplete lines of `input`, in ascending order;
/// `None` when a character is not a bracket, no line is incomplete, or a completion score
/// exceeds `u64::MAX`.
pub fn part_two(input: &str) -> (r: Option<u64>)
    ensures
        r is Some <==> (all_delimiters(lines(input@)) matches Some(ls) && completion_scores(
            ls,
        ).len() > 0 && forall|i: int|
            0 <= i < completion_scores(ls).len() ==> #[trigger] completion_scores(ls)[i]
                <= u64::MAX),
        r matches Some(v) ==> ({
            let scores = completion_scores(all_delimiters(lines(input@)).unwrap());
            v as int == scores.sort()[(scores.len() / 2) as int]
        }),
{
    let parsed = match parse_input(input) {
        Some(p) => p,
        None => {
            return None;
        },
    };
    let ghost ls = all_delimiters(lines(input@)).unwrap();
    let mut scores: Vec<u64> = Vec::new();
    let mut k: usize = 0;
    assert(ls.take(0) =~= Seq::<Seq<ChunkDelimiter>>::empty());
    assert(scores@.map_values(|x: u64| x as int) =~= Seq::<int>::empty());
    while k < parsed.len()
        invariant
            all_delimiters(lines(input@)) == Some(ls),
            parsed@.len() == ls.len(),
            forall|i: int| 0 <= i < parsed@.len() ==> (#[trigger] parsed@[i])@ == ls[i],
            k <= parsed@.len(),
            scores@.map_values(|x: u64| x as int) == completion_scores(ls.take(k as int)),
        decreases parsed@.len() - k,
    {
        assert(ls.take(k + 1).drop_last() =~= ls.take(k as int));
        assert(ls.take(k + 1).last() == ls[k as int]);
        let ghost before = scores@;
        match solve(parsed[k].as_slice()) {
            Some((true, s)) => {
                scores.push(s);
                assert(scores@.map_values(|x: u64| x as int) =~= before.map_values(
                    |x: u64| x as int,
                ).push(s as int));
            },
            Some((false, _)) => {},
            None => {
                proof {
                    lemma_scores_prefix(ls, k + 1);
                    let cs = completion_scores(ls);
                    let j = before.len() as int;
                    assert(completion_scores(ls.take(k + 1))[j] > u64::MAX);
                    assert(cs[j] > u64::MAX);
                }
                return None;
            },
        }
        k = k + 1;
    }
    assert(ls.take(k as int) =~= ls);
    if scores.len() == 0 {
        return None;
    }
    assert forall|i: int| 0 <= i < completion_scores(ls).len() implies #[trigger] completion_scores(
        ls,
    )[i] <= u64::MAX by {
        assert(completion_scores(ls)[i] == scores@.map_values(|x: u64| x as int)[i]);
    }
    sort_ascending(&mut scores);
    let middle = scores[scores.len() / 2];
    assert(middle as int == scores@.map_values(|x: u64| x as int)[(scores@.len() / 2) as int]);
    Some(middle)
}

} // verus!
