// Seven segment search: decoding scrambled segment wirings from the ten digit patterns.
use vstd::prelude::*;

use crate::parse::{
    chars_of, line_ranges, lines, pattern_ranges, split_pattern, sub_chars, word_ranges, words,
};

verus! {

/// The signal patterns and the four output patterns of one display, each a set of segments
/// as bits 1 (`a`) to 7 (`g`).
pub struct ProblemValue {
    pub signals: Vec<u8>,
    pub outputs: Vec<u8>,
}

/// The bit of segment letter `c`, or 0 for any other character.
pub open spec fn segment_bit(c: char) -> u8 {
    if c == 'a' {
        2
    } else if c == 'b' {
        4
    } else if c == 'c' {
        8
    } else if c == 'd' {
        16
    } else if c == 'e' {
        32
    } else if c == 'f' {
        64
    } else if c == 'g' {
        128
    } else {
        0
    }
}

/// The set of segments that `s` names.
pub open spec fn signal_of(s: Seq<char>) -> u8
    decreases s.len(),
{
    if s.len() == 0 {
        0
    } else {
        signal_of(s.drop_last()) | segment_bit(s.last())
    }
}

/// The patterns of the words of `text`.
pub open spec fn signals_of(ws: Seq<Seq<char>>) -> Seq<u8> {
    ws.map_values(|w: Seq<char>| signal_of(w))
}

pub open spec fn bar() -> Seq<char> {
    seq![' ', '|', ' ']
}

/// A display line `patterns | outputs`.
pub open spec fn display_of(line: Seq<char>) -> Option<(Seq<u8>, Seq<u8>)> {
    let parts = split_pattern(line, bar(), 0, 0);
    if parts.len() < 2 {
        None
    } else {
        Some((signals_of(words(parts[0])), signals_of(words(parts[1]))))
    }
}

/// The displays of `ls`, when every line is one.
pub open spec fn displays_of(ls: Seq<Seq<char>>) -> Option<Seq<(Seq<u8>, Seq<u8>)>>
    decreases ls.len(),
{
    if ls.len() == 0 {
        Some(Seq::empty())
    } else {
        match (displays_of(ls.drop_last()), display_of(ls.last())) {
            (Some(v), Some(d)) => Some(v.push(d)),
            _ => None,
        }
    }
}

/// The number of segments in `signal`, bits 0 to 7.
pub open spec fn segments(signal: u8, n: int) -> int
    decreases n,
{
    if n <= 0 {
        0
    } else {
        segments(signal, n - 1) + (if (signal >> ((n - 1) as u8)) & 1 == 1 {
            1int
        } else {
            0int
        })
    }
}

/// Returns the number of one bits in `signal`.
pub fn cardinality(signal: u8) -> (r: u8)
    ensures
        r == segments(signal, 8),
{
    let mut result: u8 = 0;
    let mut i: u8 = 0;
    while i < 8
        invariant
            i <= 8,
            result == segments(signal, i as int),
            result <= i,
        decreases 8 - i,
    {
        let set = signal & (1u8 << i) != 0;
        assert(set == ((signal >> i) & 1 == 1)) by (bit_vector)
            requires
                i < 8,
                set == (signal & (1u8 << i) != 0),
        ;
        if set {
            result = result + 1;
        }
        i = i + 1;
    }
    result
}

/// Reads one pattern: the set of segment letters `a` to `g` it names.
pub fn parse_input_signal(signal: &Vec<char>, range: (usize, usize)) -> (r: u8)
    requires
        range.0 <= range.1 <= signal@.len(),
    ensures
        r == signal_of(signal@.subrange(range.0 as int, range.1 as int)),
{
    let ghost s = signal@.subrange(range.0 as int, range.1 as int);
    let mut bits: u8 = 0;
    let mut k = range.0;
    assert(s.take(0) =~= Seq::<char>::empty());
    while k < range.1
        invariant
            range.0 <= k <= range.1 <= signal@.len(),
            s == signal@.subrange(range.0 as int, range.1 as int),
            bits == signal_of(s.take(k - range.0)),
        decreases range.1 - k,
    {
        let ghost j = k - range.0;
        assert(s.take(j + 1).drop_last() =~= s.take(j));
        assert(s.take(j + 1).last() == signal@[k as int]);
        let c = signal[k];
        if c == 'a' {
            bits = bits | 2;
        } else if c == 'b' {
            bits = bits | 4;
        } else if c == 'c' {
            bits = bits | 8;
        } else if c == 'd' {
            bits = bits | 16;
        } else if c == 'e' {
            bits = bits | 32;
        } else if c == 'f' {
            bits = bits | 64;
        } else if c == 'g' {
            bits = bits | 128;
        } else {
            assert(bits | 0u8 == bits) by (bit_vector);
        }
        k = k + 1;
    }
    assert(s.take(k - range.0) =~= s);
    bits
}

/// Reads the patterns of `text`, one per word.
pub fn parse_input_part(text: &Vec<char>) -> (r: Vec<u8>)
    ensures
        r@ == signals_of(words(text@)),
{
    let ranges = word_ranges(text);
    let ghost ws = words(text@);
    let mut out: Vec<u8> = Vec::new();
    let mut k: usize = 0;
    while k < ranges.len()
        invariant
            ws == words(text@),
            ranges@.len() == ws.len(),
            forall|j: int| 0 <= j < ranges@.len() ==> (#[trigger] ranges@[j]).0 <= ranges@[j].1 <= text@.len(),
            forall|j: int|
                0 <= j < ranges@.len() ==> text@.subrange(ranges@[j].0 as int, ranges@[j].1 as int)
                    == #[trigger] ws[j],
            k <= ws.len(),
            out@ == signals_of(ws.take(k as int)),
        decreases ws.len() - k,
    {
        out.push(parse_input_signal(text, ranges[k]));
        k = k + 1;
        assert(out@ =~= signals_of(ws.take(k as int)));
    }
    assert(ws.take(k as int) =~= ws);
    out
}

/// Reads one display line, `patterns | outputs`.
pub fn parse_input_line(line: &Vec<char>) -> (r: Option<ProblemValue>)
    ensures
        r matches Some(p) ==> display_of(line@) == Some((p.signals@, p.outputs@)),
        r is None ==> display_of(line@) is None,
{
    let sep = [' ', '|', ' '];
    assert(sep@ =~= bar());
    let parts = pattern_ranges(line, &sep);
    if parts.len() < 2 {
        return None;
    }
    let first = sub_chars(line, parts[0]);
    let second = sub_chars(line, parts[1]);
    let signals = parse_input_part(&first);
    let outputs = parse_input_part(&second);
    Some(ProblemValue { signals, outputs })
}

proof fn lemma_displays_prefix(ls: Seq<Seq<char>>, k: int)
    requires
        0 <= k <= ls.len(),
        displays_of(ls.take(k)) is None,
    ensures
        displays_of(ls) is None,
    decreases ls.len() - k,
{
    if k < ls.len() {
        assert(ls.take(k + 1).drop_last() =~= ls.take(k));
        lemma_displays_prefix(ls, k + 1);
    } else {
        assert(ls.take(k) =~= ls);
    }
}

/// Reads one display per line; `None` when a line lacks its ` | `.
pub fn parse_input(input: &str) -> (r: Option<Vec<ProblemValue>>)
    ensures
        r is Some <==> displays_of(lines(input@)) is Some,
        r matches Some(v) ==> v@.len() == displays_of(lines(input@)).unwrap().len() && forall|i: int|
            0 <= i < v@.len() ==> displays_of(lines(input@)).unwrap()[i] == (
                (#[trigger] v@[i]).signals@,
                v@[i].outputs@,
            ),
{
    let chars = chars_of(input);
    let ranges = line_ranges(&chars);
    let ghost ls = lines(chars@);
    let mut out: Vec<ProblemValue> = Vec::new();
    let mut k: usize = 0;
    assert(ls.take(0) =~= Seq::<Seq<char>>::empty());
    while k < ranges.len()
        invariant
            chars@ == input@,
            ls == lines(chars@),
            ranges@.len() == ls.len(),
            forall|j: int|
                0 <= j < ranges@.len() ==> (#[trigger] ranges@[j]).0 <= ranges@[j].1
                    <= chars@.len(),
            forall|j: int|
                0 <= j < ranges@.len() ==> chars@.subrange(ranges@[j].0 as int, ranges@[j].1 as int)
                    == #[trigger] ls[j],
            k <= ranges@.len(),
            displays_of(ls.take(k as int)) is Some,
            out@.len() == displays_of(ls.take(k as int)).unwrap().len(),
            forall|i: int|
                0 <= i < out@.len() ==> displays_of(ls.take(k as int)).unwrap()[i] == (
                    (#[trigger] out@[i]).signals@,
                    out@[i].outputs@,
                ),
        decreases ranges@.len() - k,
    {
        assert(ls.take(k + 1).drop_last() =~= ls.take(k as int));
        assert(ls.take(k + 1).last() == ls[k as int]);
        let line = sub_chars(&chars, ranges[k]);
        match parse_input_line(&line) {
            Some(p) => {
                out.push(p);
            },
            None => {
                proof {
                    lemma_displays_prefix(ls, k + 1);
                }
                return None;
            },
        }
        k = k + 1;
    }
    assert(ls.take(k as int) =~= ls);
    Some(out)
}

/// The first pass: the last pattern of each unique segment count gives digits 1, 4, 7, 8.
pub open spec fn first_pass(signals: Seq<u8>) -> Seq<u8>
    decreases signals.len(),
{
    if signals.len() == 0 {
        Seq::new(10, |i: int| 0u8)
    } else {
        let d = first_pass(signals.drop_last());
        let s = signals.last();
        let n = segments(s, 8);
        if n == 2 {
            d.update(1, s)
        } else if n == 4 {
            d.update(4, s)
        } else if n == 3 {
            d.update(7, s)
        } else if n == 7 {
            d.update(8, s)
        } else {
            d
        }
    }
}

/// The second pass: six-segment patterns holding 4 are 9, else holding 1 are 0, else 6;
/// five-segment patterns holding 1 are 3, else holding the segments of 4 not in 1 are 5,
/// else 2.
pub open spec fn second_pass(signals: Seq<u8>, known: Seq<u8>) -> Seq<u8>
    decreases signals.len(),
{
    if signals.len() == 0 {
        known
    } else {
        let d = second_pass(signals.drop_last(), known);
        let s = signals.last();
        let n = segments(s, 8);
        let five = known[4] ^ known[1];
        if n == 6 {
            if s == s | known[4] {
                d.update(9, s)
            } else if s == s | known[1] {
                d.update(0, s)
            } else {
                d.update(6, s)
            }
        } else if n == 5 {
            if s == s | known[1] {
                d.update(3, s)
            } else if s == s | five {
                d.update(5, s)
            } else {
                d.update(2, s)
            }
        } else {
            d
        }
    }
}

/// The pattern of each digit, when both passes find every digit.
pub open spec fn mapping_of(signals: Seq<u8>) -> Option<Seq<u8>> {
    let first = first_pass(signals);
    if first[1] == 0 || first[4] == 0 || first[7] == 0 || first[8] == 0 {
        None
    } else {
        let d = second_pass(signals, first);
        if d[0] == 0 || d[2] == 0 || d[3] == 0 || d[5] == 0 || d[6] == 0 || d[9] == 0 {
            None
        } else {
            Some(d)
        }
    }
}

/// The largest digit below `n` whose pattern is `out`.
pub open spec fn decode(d: Seq<u8>, out: u8, n: int) -> Option<int>
    decreases n,
{
    if n <= 0 {
        None
    } else if d[n - 1] == out {
        Some(n - 1)
    } else {
        decode(d, out, n - 1)
    }
}

proof fn lemma_first_pass_len(signals: Seq<u8>)
    ensures
        first_pass(signals).len() == 10,
    decreases signals.len(),
{
    if signals.len() > 0 {
        lemma_first_pass_len(signals.drop_last());
    }
}

proof fn lemma_second_pass_len(signals: Seq<u8>, known: Seq<u8>)
    requires
        known.len() == 10,
    ensures
        second_pass(signals, known).len() == 10,
    decreases signals.len(),
{
    if signals.len() > 0 {
        lemma_second_pass_len(signals.drop_last(), known);
    }
}

/// Finds the pattern of each digit from the ten patterns of a display; `None` when a digit
/// is not found.
pub fn solve_digit_mapping(signals: &[u8]) -> (r: Option<Vec<u8>>)
    ensures
        r matches Some(d) ==> mapping_of(signals@) == Some(d@),
        r is None ==> mapping_of(signals@) is None,
{
    let mut digits: Vec<u8> = vec![0u8; 10];
    let ghost sig = signals@;
    let mut k: usize = 0;
    assert(sig.take(0) =~= Seq::<u8>::empty());
    assert(digits@ =~= first_pass(sig.take(0)));
    while k < signals.len()
        invariant
            sig == signals@,
            k <= sig.len(),
            digits@ == first_pass(sig.take(k as int)),
        decreases sig.len() - k,
    {
        assert(sig.take(k + 1).drop_last() =~= sig.take(k as int));
        assert(sig.take(k + 1).last() == sig[k as int]);
        proof {
            lemma_first_pass_len(sig.take(k as int));
        }
        let s = signals[k];
        let n = cardinality(s);
        if n == 2 {
            digits.set(1, s);
        } else if n == 4 {
            digits.set(4, s);
        } else if n == 3 {
            digits.set(7, s);
        } else if n == 7 {
            digits.set(8, s);
        }
        k = k + 1;
    }
    assert(sig.take(k as int) =~= sig);
    proof {
        lemma_first_pass_len(sig);
    }
    if digits[1] == 0 || digits[4] == 0 || digits[7] == 0 || digits[8] == 0 {
        return None;
    }
    let ghost known = digits@;
    let four = digits[4];
    let one = digits[1];
    let bits_five = four ^ one;
    let mut k: usize = 0;
    assert(sig.take(0) =~= Seq::<u8>::empty());
    while k < signals.len()
        invariant
            sig == signals@,
            known == first_pass(sig),
            known.len() == 10,
            four == known[4],
            one == known[1],
            bits_five == known[4] ^ known[1],
            k <= sig.len(),
            digits@ == second_pass(sig.take(k as int), known),
        decreases sig.len() - k,
    {
        assert(sig.take(k + 1).drop_last() =~= sig.take(k as int));
        assert(sig.take(k + 1).last() == sig[k as int]);
        proof {
            lemma_second_pass_len(sig.take(k as int), known);
        }
        let s = signals[k];
        let n = cardinality(s);
        if n == 6 {
            if s == s | four {
                digits.set(9, s);
            } else if s == s | one {
                digits.set(0, s);
            } else {
                digits.set(6, s);
            }
        } else if n == 5 {
            if s == s | one {
                digits.set(3, s);
            } else if s == s | bits_five {
                digits.set(5, s);
            } else {
                digits.set(2, s);
            }
        }
        k = k + 1;
    }
    assert(sig.take(k as int) =~= sig);
    proof {
        lemma_second_pass_len(sig, known);
    }
    if digits[0] == 0 || digits[2] == 0 || digits[3] == 0 || digits[5] == 0 || digits[6] == 0
        || digits[9] == 0 {
        return None;
    }
    Some(digits)
}

/// The digit whose pattern is `out`, the largest when several share it.
pub fn lookup_digit(digits: &Vec<u8>, out: u8) -> (r: Option<u32>)
    requires
        digits@.len() == 10,
    ensures
        r matches Some(v) ==> decode(digits@, out, 10) == Some(v as int),
        r is None ==> decode(digits@, out, 10) is None,
{
    let mut n: usize = 10;
    while n > 0
        invariant
            n <= 10,
            digits@.len() == 10,
            decode(digits@, out, 10) == decode(digits@, out, n as int),
        decreases n,
    {
        if digits[n - 1] == out {
            return Some((n - 1) as u32);
        }
        n = n - 1;
    }
    None
}

/// A pattern of 2, 3, 4 or 7 segments: a 1, 7, 4 or 8.
pub open spec fn is_easy(s: u8) -> bool {
    let n = segments(s, 8);
    n == 2 || n == 4 || n == 3 || n == 7
}

/// How many of the first `n` outputs are easy digits.
pub open spec fn easy_in(outs: Seq<u8>, n: int) -> int
    decreases n,
{
    if n <= 0 {
        0
    } else {
        easy_in(outs, n - 1) + (if is_easy(outs[n - 1]) {
            1int
        } else {
            0int
        })
    }
}

/// How many outputs of the first `n` displays are easy digits.
pub open spec fn easy_total(ds: Seq<(Seq<u8>, Seq<u8>)>, n: int) -> int
    decreases n,
{
    if n <= 0 {
        0
    } else {
        easy_total(ds, n - 1) + easy_in(ds[n - 1].1, ds[n - 1].1.len() as int)
    }
}

/// The four-digit reading of a display whose digit patterns are `d`.
pub open spec fn reading(d: Seq<u8>, outs: Seq<u8>) -> Option<int> {
    if outs.len() < 4 {
        None
    } else {
        match (decode(d, outs[0], 10), decode(d, outs[1], 10), decode(d, outs[2], 10), decode(d, outs[3], 10)) {
            (Some(a), Some(b), Some(c), Some(e)) => Some(1000 * a + 100 * b + 10 * c + e),
            _ => None,
        }
    }
}

/// The sum of the readings of the first `n` displays; `None` once a display cannot be
/// decoded or the sum exceeds `u32::MAX`.
pub open spec fn readings_total(ds: Seq<(Seq<u8>, Seq<u8>)>, n: int) -> Option<int>
    decreases n,
{
    if n <= 0 {
        Some(0)
    } else {
        match readings_total(ds, n - 1) {
            None => None,
            Some(t) => match mapping_of(ds[n - 1].0) {
                None => None,
                Some(d) => match reading(d, ds[n - 1].1) {
                    Some(v) => if t + v <= u32::MAX {
                        Some(t + v)
                    } else {
                        None
                    },
                    None => None,
                },
            },
        }
    }
}

proof fn lemma_easy_in_grows(outs: Seq<u8>, k: int, n: int)
    requires
        0 <= k <= n,
    ensures
        0 <= easy_in(outs, k) <= easy_in(outs, n),
    decreases n - k,
{
    if k < n {
        lemma_easy_in_grows(outs, k, n - 1);
    } else {
        lemma_easy_in_nonneg(outs, k);
    }
}

proof fn lemma_easy_in_nonneg(outs: Seq<u8>, n: int)
    ensures
        easy_in(outs, n) >= 0,
    decreases n,
{
    if n > 0 {
        lemma_easy_in_nonneg(outs, n - 1);
    }
}

proof fn lemma_easy_total_grows(ds: Seq<(Seq<u8>, Seq<u8>)>, k: int, n: int)
    requires
        0 <= k <= n,
    ensures
        easy_total(ds, k) <= easy_total(ds, n),
    decreases n - k,
{
    if k < n {
        lemma_easy_total_grows(ds, k, n - 1);
        lemma_easy_in_nonneg(ds[n - 1].1, ds[n - 1].1.len() as int);
    }
}

proof fn lemma_readings_prefix(ds: Seq<(Seq<u8>, Seq<u8>)>, k: int, n: int)
    requires
        0 <= k <= n,
        readings_total(ds, k) is None,
    ensures
        readings_total(ds, n) is None,
    decreases n - k,
{
    if k < n {
        lemma_readings_prefix(ds, k, n - 1);
    }
}

/// The number of output digits that are 1, 4, 7 or 8; `None` when a line is not a display or
/// the count exceeds `u32::MAX`.
pub fn part_one(input: &str) -> (r: Option<u32>)
    ensures
        r is Some <==> (displays_of(lines(input@)) matches Some(ds) && easy_total(ds, ds.len() as int)
            <= u32::MAX),
        r matches Some(v) ==> ({
            let ds = displays_of(lines(input@)).unwrap();
            easy_total(ds, ds.len() as int) == v as int
        }),
{
    let values = match parse_input(input) {
        Some(v) => v,
        None => {
            return None;
        },
    };
    let ghost ds = displays_of(lines(input@)).unwrap();
    let mut result: u32 = 0;
    let mut k: usize = 0;
    while k < values.len()
        invariant
            displays_of(lines(input@)) == Some(ds),
            values@.len() == ds.len(),
            forall|i: int| 0 <= i < values@.len() ==> ds[i] == ((#[trigger] values@[i]).signals@, values@[i].outputs@),
            k <= ds.len(),
            result as int == easy_total(ds, k as int),
        decreases ds.len() - k,
    {
        assert(ds[k as int] == (values@[k as int].signals@, values@[k as int].outputs@));
        let ghost outs = values@[k as int].outputs@;
        let mut j: usize = 0;
        while j < values[k].outputs.len()
            invariant
                displays_of(lines(input@)) == Some(ds),
                k < ds.len(),
                values@.len() == ds.len(),
                outs == values@[k as int].outputs@,
                outs == ds[k as int].1,
                j <= outs.len(),
                result as int == easy_total(ds, k as int) + easy_in(outs, j as int),
            decreases outs.len() - j,
        {
            let n = cardinality(values[k].outputs[j]);
            if n == 2 || n == 4 || n == 3 || n == 7 {
                result = match result.checked_add(1) {
                    Some(t) => t,
                    None => {
                        proof {
                            lemma_easy_in_grows(outs, j + 1, outs.len() as int);
                            lemma_easy_total_grows(ds, k + 1, ds.len() as int);
                        }
                        return None;
                    },
                };
            }
            j = j + 1;
        }
        k = k + 1;
    }
    Some(result)
}

/// The sum of the four-digit readings of the displays; `None` when a line is not a display,
/// a display cannot be decoded or has fewer than four outputs, or the sum exceeds
/// `u32::MAX`.
pub fn part_two(input: &str) -> (r: Option<u32>)
    ensures
        r is Some <==> (displays_of(lines(input@)) matches Some(ds) && readings_total(ds, ds.len() as int)
            is Some),
        r matches Some(v) ==> ({
            let ds = displays_of(lines(input@)).unwrap();
            readings_total(ds, ds.len() as int) == Some(v as int)
        }),
{
    let values = match parse_input(input) {
        Some(v) => v,
        None => {
            return None;
        },
    };
    let ghost ds = displays_of(lines(input@)).unwrap();
    let mut result: u32 = 0;
    let mut k: usize = 0;
    while k < values.len()
        invariant
            displays_of(lines(input@)) == Some(ds),
            values@.len() == ds.len(),
            forall|i: int| 0 <= i < values@.len() ==> ds[i] == ((#[trigger] values@[i]).signals@, values@[i].outputs@),
            k <= ds.len(),
            readings_total(ds, k as int) == Some(result as int),
        decreases ds.len() - k,
    {
        assert(ds[k as int] == (values@[k as int].signals@, values@[k as int].outputs@));
        let v = &values[k];
        let digits = match solve_digit_mapping(v.signals.as_slice()) {
            Some(d) => d,
            None => {
                proof {
                    lemma_readings_prefix(ds, k + 1, ds.len() as int);
                }
                return None;
            },
        };
        proof {
            lemma_first_pass_len(v.signals@);
            lemma_second_pass_len(v.signals@, first_pass(v.signals@));
        }
        if v.outputs.len() < 4 {
            proof {
                lemma_readings_prefix(ds, k + 1, ds.len() as int);
            }
            return None;
        }
        let a = lookup_digit(&digits, v.outputs[0]);
        let b = lookup_digit(&digits, v.outputs[1]);
        let c = lookup_digit(&digits, v.outputs[2]);
        let e = lookup_digit(&digits, v.outputs[3]);
        let value = match (a, b, c, e) {
            (Some(a), Some(b), Some(c), Some(e)) => {
                proof {
                    lemma_decode_bound(digits@, v.outputs@[0], 10);
                    lemma_decode_bound(digits@, v.outputs@[1], 10);
                    lemma_decode_bound(digits@, v.outputs@[2], 10);
                    lemma_decode_bound(digits@, v.outputs@[3], 10);
                }
                1000 * a + 100 * b + 10 * c + e
            },
            _ => {
                proof {
                    lemma_readings_prefix(ds, k + 1, ds.len() as int);
                }
                return None;
            },
        };
        result = match result.checked_add(value) {
            Some(t) => t,
            None => {
                proof {
                    lemma_readings_prefix(ds, k + 1, ds.len() as int);
                }
                return None;
            },
        };
        k = k + 1;
    }
    Some(result)
}

proof fn lemma_decode_bound(d: Seq<u8>, out: u8, n: int)
    ensures
        decode(d, out, n) matches Some(v) ==> 0 <= v < n,
    decreases n,
{
    if n > 0 {
        lemma_decode_bound(d, out, n - 1);
    }
}

} // verus!
