// Reading text: decimal numbers, white-space separated words, lines, and pieces between
// separators.
use vstd::prelude::*;

verus! {

/// Whether `c` has the Unicode `White_Space` property.
pub open spec fn is_white_space(c: char) -> bool {
    ('\t' <= c && c <= '\r') || c == ' ' || c == '\u{85}' || c == '\u{a0}' || c == '\u{1680}'
        || ('\u{2000}' <= c && c <= '\u{200a}') || c == '\u{2028}' || c == '\u{2029}' || c
        == '\u{202f}' || c == '\u{205f}' || c == '\u{3000}'
}

pub open spec fn is_digit(c: char) -> bool {
    '0' <= c && c <= '9'
}

/// The value of a run of decimal digits.
pub open spec fn digits_value(s: Seq<char>) -> int
    decreases s.len(),
{
    if s.len() == 0 {
        0
    } else {
        digits_value(s.drop_last()) * 10 + (s.last() as int - '0' as int)
    }
}

/// `s` without one leading `+`.
pub open spec fn unsigned_body(s: Seq<char>) -> Seq<char> {
    if s.len() > 0 && s[0] == '+' {
        s.drop_first()
    } else {
        s
    }
}

/// The unsigned decimal number that `s` spells (an optional `+`, then at least one digit),
/// when it is at most `max`.
pub open spec fn decimal(s: Seq<char>, max: int) -> Option<int> {
    let d = unsigned_body(s);
    if d.len() > 0 && (forall|i: int| 0 <= i < d.len() ==> is_digit(#[trigger] d[i]))
        && digits_value(d) <= max {
        Some(digits_value(d))
    } else {
        None
    }
}

/// The pieces of `s` between non-overlapping occurrences of `pat`, searched left to right;
/// the current piece starts at `start` and the search has reached `i`.
pub open spec fn split_pattern(s: Seq<char>, pat: Seq<char>, start: int, i: int) -> Seq<Seq<char>>
    decreases s.len() - i,
{
    if pat.len() == 0 || i < start || start < 0 || i + pat.len() > s.len() {
        seq![s.subrange(start, s.len() as int)]
    } else if s.subrange(i, i + pat.len()) == pat {
        seq![s.subrange(start, i)] + split_pattern(s, pat, i + pat.len(), i + pat.len())
    } else {
        split_pattern(s, pat, start, i + 1)
    }
}

/// The pieces of `s` between occurrences of `sep`, always at least one.
pub open spec fn pieces(s: Seq<char>, sep: char) -> Seq<Seq<char>>
    decreases s.len(),
{
    if s.len() == 0 {
        seq![Seq::empty()]
    } else {
        let p = pieces(s.drop_last(), sep);
        if s.last() == sep {
            p.push(Seq::empty())
        } else {
            p.update(p.len() - 1, p.last().push(s.last()))
        }
    }
}

/// The finished words of `s` split at white space, and the word still open at its end.
pub open spec fn words_open(s: Seq<char>) -> (Seq<Seq<char>>, Seq<char>)
    decreases s.len(),
{
    if s.len() == 0 {
        (Seq::empty(), Seq::empty())
    } else {
        let (done, open) = words_open(s.drop_last());
        if is_white_space(s.last()) {
            if open.len() > 0 {
                (done.push(open), Seq::empty())
            } else {
                (done, Seq::empty())
            }
        } else {
            (done, open.push(s.last()))
        }
    }
}

/// The maximal runs of characters of `s` that are not white space.
pub open spec fn words(s: Seq<char>) -> Seq<Seq<char>> {
    let (done, open) = words_open(s);
    if open.len() > 0 {
        done.push(open)
    } else {
        done
    }
}

/// The numbers at most `max` that the words of `ws` spell, in order, other words skipped.
pub open spec fn decimals_of(ws: Seq<Seq<char>>, max: int) -> Seq<int>
    decreases ws.len(),
{
    if ws.len() == 0 {
        Seq::empty()
    } else {
        let rest = decimals_of(ws.drop_last(), max);
        match decimal(ws.last(), max) {
            Some(v) => rest.push(v),
            None => rest,
        }
    }
}

pub open spec fn strip_cr(line: Seq<char>) -> Seq<char> {
    if line.len() > 0 && line.last() == '\r' {
        line.drop_last()
    } else {
        line
    }
}

/// The lines of `s`: the pieces between line feeds, each that a line feed ends without one
/// trailing carriage return, and a last piece only when it is not empty.
pub open spec fn lines(s: Seq<char>) -> Seq<Seq<char>> {
    let p = pieces(s, '\n');
    let ended = p.drop_last().map_values(|l: Seq<char>| strip_cr(l));
    if p.last().len() > 0 {
        ended.push(p.last())
    } else {
        ended
    }
}

/// Relies on std's `str::chars`: the characters of `s`, in order.
#[verifier::external_body]
pub(crate) fn chars_of(s: &str) -> (r: Vec<char>)
    ensures
        r@ == s@,
{
    s.chars().collect()
}

/// Whether `c` has the Unicode `White_Space` property.
pub fn white_space(c: char) -> (r: bool)
    ensures
        r == is_white_space(c),
{
    ('\t' <= c && c <= '\r') || c == ' ' || c == '\u{85}' || c == '\u{a0}' || c == '\u{1680}'
        || ('\u{2000}' <= c && c <= '\u{200a}') || c == '\u{2028}' || c == '\u{2029}' || c
        == '\u{202f}' || c == '\u{205f}' || c == '\u{3000}'
}

proof fn lemma_digits_value_nonneg(s: Seq<char>)
    requires
        forall|i: int| 0 <= i < s.len() ==> is_digit(#[trigger] s[i]),
    ensures
        digits_value(s) >= 0,
    decreases s.len(),
{
    if s.len() > 0 {
        lemma_digits_value_nonneg(s.drop_last());
    }
}

/// Reads `chars[start..end]` as an unsigned decimal number no larger than `max`.
pub fn decimal_in(chars: &Vec<char>, start: usize, end: usize, max: u64) -> (r: Option<u64>)
    requires
        start <= end <= chars@.len(),
    ensures
        r matches Some(v) ==> decimal(chars@.subrange(start as int, end as int), max as int)
            == Some(v as int),
        r is None ==> decimal(chars@.subrange(start as int, end as int), max as int) is None,
{
    let ghost s = chars@.subrange(start as int, end as int);
    let mut first = start;
    if start < end && chars[start] == '+' {
        first = start + 1;
    }
    let ghost d = unsigned_body(s);
    assert(d =~= chars@.subrange(first as int, end as int));
    if first == end {
        return None;
    }
    let mut value: u64 = 0;
    let mut over = false;
    let mut i = first;
    while i < end
        invariant
            start <= first < end <= chars@.len(),
            first <= i <= end,
            d == chars@.subrange(first as int, end as int),
            d == unsigned_body(chars@.subrange(start as int, end as int)),
            forall|k: int| first <= k < i ==> is_digit(#[trigger] chars@[k]),
            over ==> digits_value(chars@.subrange(first as int, i as int)) > max,
            !over ==> digits_value(chars@.subrange(first as int, i as int)) == value as int,
            !over ==> value <= max,
        decreases end - i,
    {
        let c = chars[i];
        if !('0' <= c && c <= '9') {
            assert(!is_digit(d[i - first]));
            return None;
        }
        let ghost prefix = chars@.subrange(first as int, i as int);
        let ghost next = chars@.subrange(first as int, i + 1);
        assert(next.drop_last() =~= prefix);
        proof {
            lemma_digits_value_nonneg(prefix);
        }
        let digit = (c as u32 - '0' as u32) as u64;
        if !over {
            match value.checked_mul(10) {
                Some(tens) => match tens.checked_add(digit) {
                    Some(v) => {
                        if v <= max {
                            value = v;
                        } else {
                            over = true;
                        }
                    },
                    None => {
                        over = true;
                    },
                },
                None => {
                    over = true;
                },
            }
        }
        i = i + 1;
    }
    assert(chars@.subrange(first as int, i as int) =~= d);
    if over {
        None
    } else {
        Some(value)
    }
}

/// Reads `s` as a `u32` in decimal.
pub fn parse_u32(s: &str) -> (r: Option<u32>)
    ensures
        r matches Some(v) ==> decimal(s@, u32::MAX as int) == Some(v as int),
        r is None ==> decimal(s@, u32::MAX as int) is None,
{
    let chars = chars_of(s);
    assert(chars@.subrange(0, chars@.len() as int) =~= s@);
    match decimal_in(&chars, 0, chars.len(), u32::MAX as u64) {
        Some(v) => Some(v as u32),
        None => None,
    }
}

/// Reads `s` as a `u64` in decimal.
pub fn parse_u64(s: &str) -> (r: Option<u64>)
    ensures
        r matches Some(v) ==> decimal(s@, u64::MAX as int) == Some(v as int),
        r is None ==> decimal(s@, u64::MAX as int) is None,
{
    let chars = chars_of(s);
    assert(chars@.subrange(0, chars@.len() as int) =~= s@);
    decimal_in(&chars, 0, chars.len(), u64::MAX)
}

/// The bounds of the words of `chars`: its maximal runs of characters that are not white
/// space.
pub fn word_ranges(chars: &Vec<char>) -> (r: Vec<(usize, usize)>)
    ensures
        r@.len() == words(chars@).len(),
        forall|k: int|
            0 <= k < r@.len() ==> (#[trigger] r@[k]).0 <= r@[k].1 <= chars@.len(),
        forall|k: int|
            0 <= k < r@.len() ==> chars@.subrange(
                r@[k].0 as int,
                r@[k].1 as int,
            ) == #[trigger] words(chars@)[k],
{
    let mut out: Vec<(usize, usize)> = Vec::new();
    let mut start: usize = 0;
    let mut i: usize = 0;
    while i < chars.len()
        invariant
            start <= i <= chars@.len(),
            words_open(chars@.take(i as int)).1 == chars@.subrange(start as int, i as int),
            out@.len() == words_open(chars@.take(i as int)).0.len(),
            forall|k: int|
                0 <= k < out@.len() ==> (#[trigger] out@[k]).0 <= out@[k].1 <= chars@.len(),
            forall|k: int|
                0 <= k < out@.len() ==> chars@.subrange(
                    out@[k].0 as int,
                    out@[k].1 as int,
                ) == #[trigger] words_open(chars@.take(i as int)).0[k],
        decreases chars@.len() - i,
    {
        let ghost prev = words_open(chars@.take(i as int));
        assert(chars@.take(i + 1).drop_last() =~= chars@.take(i as int));
        assert(chars@.take(i + 1).last() == chars@[i as int]);
        assert(chars@.subrange(start as int, i + 1) =~= chars@.subrange(
            start as int,
            i as int,
        ).push(chars@[i as int]));
        if white_space(chars[i]) {
            if start < i {
                out.push((start, i));
            }
            start = i + 1;
            assert(chars@.subrange(start as int, i + 1) =~= Seq::<char>::empty());
        }
        assert(forall|k: int|
            0 <= k < prev.0.len() ==> #[trigger] words_open(chars@.take(i + 1)).0[k] == prev.0[k]);
        i = i + 1;
    }
    assert(chars@.take(i as int) =~= chars@);
    if start < i {
        out.push((start, i));
    }
    out
}

/// Reads each word of `chars` that is a decimal number no larger than `max`, skipping the
/// others.
pub fn decimal_list(chars: &Vec<char>, max: u64) -> (r: Vec<u64>)
    ensures
        r@.len() == decimals_of(words(chars@), max as int).len(),
        forall|k: int|
            0 <= k < r@.len() ==> r@[k] as int == #[trigger] decimals_of(
                words(chars@),
                max as int,
            )[k],
{
    let ranges = word_ranges(chars);
    let ghost ws = words(chars@);
    let mut out: Vec<u64> = Vec::new();
    let mut k: usize = 0;
    assert(ws.take(0) =~= Seq::<Seq<char>>::empty());
    while k < ranges.len()
        invariant
            ws == words(chars@),
            ranges@.len() == ws.len(),
            forall|j: int|
                0 <= j < ranges@.len() ==> (#[trigger] ranges@[j]).0 <= ranges@[j].1 <= chars@.len(),
            forall|j: int|
                0 <= j < ranges@.len() ==> chars@.subrange(ranges@[j].0 as int, ranges@[j].1 as int) == #[trigger] ws[j],
            k <= ranges@.len(),
            out@.len() == decimals_of(ws.take(k as int), max as int).len(),
            forall|j: int|
                0 <= j < out@.len() ==> out@[j] as int == #[trigger] decimals_of(
                    ws.take(k as int),
                    max as int,
                )[j],
        decreases ranges@.len() - k,
    {
        let ghost prev = decimals_of(ws.take(k as int), max as int);
        assert(ws.take(k + 1).drop_last() =~= ws.take(k as int));
        assert(ws.take(k + 1).last() == ws[k as int]);
        assert(forall|j: int|
            0 <= j < prev.len() ==> #[trigger] decimals_of(ws.take(k + 1), max as int)[j]
                == prev[j]);
        let (a, b) = ranges[k];
        match decimal_in(chars, a, b, max) {
            Some(v) => {
                out.push(v);
            },
            None => {},
        }
        k = k + 1;
    }
    assert(ws.take(k as int) =~= ws);
    out
}

/// Reads each word of `chars` that is a `u32` in decimal, skipping the others.
pub fn u32_words(chars: &Vec<char>) -> (r: Vec<u32>)
    ensures
        r@.len() == decimals_of(words(chars@), u32::MAX as int).len(),
        forall|k: int|
            0 <= k < r@.len() ==> r@[k] as int == #[trigger] decimals_of(
                words(chars@),
                u32::MAX as int,
            )[k],
{
    let wide = decimal_list(chars, u32::MAX as u64);
    let mut out: Vec<u32> = Vec::new();
    let mut k: usize = 0;
    while k < wide.len()
        invariant
            wide@.len() == decimals_of(words(chars@), u32::MAX as int).len(),
            forall|j: int|
                0 <= j < wide@.len() ==> wide@[j] as int == #[trigger] decimals_of(
                    words(chars@),
                    u32::MAX as int,
                )[j],
            k <= wide@.len(),
            out@.len() == k,
            forall|j: int| 0 <= j < k ==> out@[j] as int == #[trigger] wide@[j] as int,
        decreases wide@.len() - k,
    {
        proof {
            lemma_decimals_bounded(words(chars@), u32::MAX as int, k as int);
        }
        out.push(wide[k] as u32);
        k = k + 1;
    }
    out
}

/// Reads each white-space separated word of `s` that is a `u32` in decimal, skipping the
/// others.
pub fn parse_u32_list(s: &str) -> (r: Vec<u32>)
    ensures
        r@.len() == decimals_of(words(s@), u32::MAX as int).len(),
        forall|k: int|
            0 <= k < r@.len() ==> r@[k] as int == #[trigger] decimals_of(
                words(s@),
                u32::MAX as int,
            )[k],
{
    let chars = chars_of(s);
    u32_words(&chars)
}

/// Copies `chars[range.0..range.1]`.
pub fn sub_chars(chars: &Vec<char>, range: (usize, usize)) -> (r: Vec<char>)
    requires
        range.0 <= range.1 <= chars@.len(),
    ensures
        r@ == chars@.subrange(range.0 as int, range.1 as int),
{
    let mut out: Vec<char> = Vec::new();
    let mut i = range.0;
    while i < range.1
        invariant
            range.0 <= i <= range.1 <= chars@.len(),
            out@ == chars@.subrange(range.0 as int, i as int),
        decreases range.1 - i,
    {
        out.push(chars[i]);
        i = i + 1;
        assert(out@ =~= chars@.subrange(range.0 as int, i as int));
    }
    out
}

/// Reads each white-space separated word of `s` that is a `u64` in decimal, skipping the
/// others.
pub fn parse_u64_list(s: &str) -> (r: Vec<u64>)
    ensures
        r@.len() == decimals_of(words(s@), u64::MAX as int).len(),
        forall|k: int|
            0 <= k < r@.len() ==> r@[k] as int == #[trigger] decimals_of(
                words(s@),
                u64::MAX as int,
            )[k],
{
    let chars = chars_of(s);
    decimal_list(&chars, u64::MAX)
}

proof fn lemma_decimals_bounded(ws: Seq<Seq<char>>, max: int, k: int)
    requires
        0 <= k < decimals_of(ws, max).len(),
    ensures
        0 <= decimals_of(ws, max)[k] <= max,
    decreases ws.len(),
{
    let rest = decimals_of(ws.drop_last(), max);
    match decimal(ws.last(), max) {
        Some(v) => {
            if k < rest.len() {
                lemma_decimals_bounded(ws.drop_last(), max, k);
            } else {
                let d = unsigned_body(ws.last());
                lemma_digits_value_nonneg(d);
            }
        },
        None => {
            lemma_decimals_bounded(ws.drop_last(), max, k);
        },
    }
}

/// The bounds of the lines of `chars`, as `str::lines` splits them.
pub fn line_ranges(chars: &Vec<char>) -> (r: Vec<(usize, usize)>)
    ensures
        r@.len() == lines(chars@).len(),
        forall|k: int|
            0 <= k < r@.len() ==> (#[trigger] r@[k]).0 <= r@[k].1 <= chars@.len(),
        forall|k: int|
            0 <= k < r@.len() ==> chars@.subrange(
                r@[k].0 as int,
                r@[k].1 as int,
            ) == #[trigger] lines(chars@)[k],
{
    let mut out: Vec<(usize, usize)> = Vec::new();
    let mut start: usize = 0;
    let mut i: usize = 0;
    while i < chars.len()
        invariant
            start <= i <= chars@.len(),
            pieces(chars@.take(i as int), '\n').len() == out@.len() + 1,
            pieces(chars@.take(i as int), '\n').last() == chars@.subrange(start as int, i as int),
            forall|k: int|
                0 <= k < out@.len() ==> (#[trigger] out@[k]).0 <= out@[k].1 <= chars@.len(),
            forall|k: int|
                0 <= k < out@.len() ==> chars@.subrange(
                    out@[k].0 as int,
                    out@[k].1 as int,
                ) == strip_cr(#[trigger] pieces(chars@.take(i as int), '\n')[k]),
        decreases chars@.len() - i,
    {
        let ghost before = pieces(chars@.take(i as int), '\n');
        assert(chars@.take(i + 1).drop_last() =~= chars@.take(i as int));
        if chars[i] == '\n' {
            let mut end = i;
            if end > start && chars[end - 1] == '\r' {
                end = end - 1;
                assert(chars@.subrange(start as int, end as int) =~= chars@.subrange(
                    start as int,
                    i as int,
                ).drop_last());
            }
            out.push((start, end));
            start = i + 1;
            assert(chars@.subrange(start as int, i + 1) =~= Seq::<char>::empty());
        } else {
            assert(chars@.subrange(start as int, i + 1) =~= chars@.subrange(
                start as int,
                i as int,
            ).push(chars@[i as int]));
        }
        i = i + 1;
    }
    assert(chars@.take(i as int) =~= chars@);
    let ghost p = pieces(chars@, '\n');
    assert(forall|k: int| 0 <= k < out@.len() ==> #[trigger] lines(chars@)[k] == strip_cr(p[k]));
    if start < i {
        out.push((start, i));
    }
    out
}

/// The bounds of the pieces of `chars` between occurrences of `sep`.
pub fn piece_ranges(chars: &Vec<char>, sep: char) -> (r: Vec<(usize, usize)>)
    ensures
        r@.len() == pieces(chars@, sep).len(),
        forall|k: int|
            0 <= k < r@.len() ==> (#[trigger] r@[k]).0 <= r@[k].1 <= chars@.len(),
        forall|k: int|
            0 <= k < r@.len() ==> chars@.subrange(r@[k].0 as int, r@[k].1 as int)
                == #[trigger] pieces(chars@, sep)[k],
{
    let mut out: Vec<(usize, usize)> = Vec::new();
    let mut start: usize = 0;
    let mut i: usize = 0;
    while i < chars.len()
        invariant
            start <= i <= chars@.len(),
            pieces(chars@.take(i as int), sep).len() == out@.len() + 1,
            pieces(chars@.take(i as int), sep).last() == chars@.subrange(start as int, i as int),
            forall|k: int|
                0 <= k < out@.len() ==> (#[trigger] out@[k]).0 <= out@[k].1 <= chars@.len(),
            forall|k: int|
                0 <= k < out@.len() ==> chars@.subrange(out@[k].0 as int, out@[k].1 as int)
                    == #[trigger] pieces(chars@.take(i as int), sep)[k],
        decreases chars@.len() - i,
    {
        assert(chars@.take(i + 1).drop_last() =~= chars@.take(i as int));
        if chars[i] == sep {
            out.push((start, i));
            start = i + 1;
            assert(chars@.subrange(start as int, i + 1) =~= Seq::<char>::empty());
        } else {
            assert(chars@.subrange(start as int, i + 1) =~= chars@.subrange(
                start as int,
                i as int,
            ).push(chars@[i as int]));
        }
        i = i + 1;
    }
    assert(chars@.take(i as int) =~= chars@);
    out.push((start, i));
    out
}

/// The bounds of the pieces of `s` between non-overlapping occurrences of `pat`.
pub fn pattern_ranges(s: &Vec<char>, pat: &[char]) -> (r: Vec<(usize, usize)>)
    requires
        pat@.len() > 0,
    ensures
        r@.len() == split_pattern(s@, pat@, 0, 0).len(),
        forall|k: int| 0 <= k < r@.len() ==> (#[trigger] r@[k]).0 <= r@[k].1 <= s@.len(),
        forall|k: int|
            0 <= k < r@.len() ==> s@.subrange(r@[k].0 as int, r@[k].1 as int)
                == #[trigger] split_pattern(s@, pat@, 0, 0)[k],
{
    let mut out: Vec<(usize, usize)> = Vec::new();
    let mut start: usize = 0;
    let mut i: usize = 0;
    let ghost whole = split_pattern(s@, pat@, 0, 0);
    while pat.len() <= s.len() - i
        invariant
            pat@.len() > 0,
            start <= i,
            i <= s@.len(),
            s.len() == s@.len(),
            whole == split_pattern(s@, pat@, 0, 0),
            whole == out@.map_values(
                |p: (usize, usize)| s@.subrange(p.0 as int, p.1 as int),
            ) + split_pattern(s@, pat@, start as int, i as int),
            forall|k: int| 0 <= k < out@.len() ==> (#[trigger] out@[k]).0 <= out@[k].1 <= s@.len(),
        decreases s@.len() - i,
    {
        let ghost before = out@;
        let mut k: usize = 0;
        let mut same = true;
        while k < pat.len()
            invariant
                i + pat@.len() <= s@.len(),
                s.len() == s@.len(),
                k <= pat@.len(),
                same == (forall|j: int| 0 <= j < k ==> s@[i + j] == pat@[j]),
            decreases pat@.len() - k,
        {
            if s[i + k] != pat[k] {
                same = false;
            }
            k = k + 1;
        }
        if same {
            assert(s@.subrange(i as int, i + pat@.len()) =~= pat@);
            out.push((start, i));
            let ghost rest = split_pattern(s@, pat@, i + pat@.len(), i + pat@.len());
            assert(out@.map_values(|p: (usize, usize)| s@.subrange(p.0 as int, p.1 as int))
                =~= before.map_values(|p: (usize, usize)| s@.subrange(p.0 as int, p.1 as int)).push(
                s@.subrange(start as int, i as int),
            ));
            assert(whole =~= out@.map_values(
                |p: (usize, usize)| s@.subrange(p.0 as int, p.1 as int),
            ) + rest);
            i = i + pat.len();
            start = i;
        } else {
            let ghost j = choose|j: int| 0 <= j < pat@.len() && s@[i + j] != pat@[j];
            assert(s@.subrange(i as int, i + pat@.len())[j] != pat@[j]);
            i = i + 1;
        }
    }
    out.push((start, s.len()));
    let ghost fin = out@.map_values(|p: (usize, usize)| s@.subrange(p.0 as int, p.1 as int));
    assert(forall|k: int| 0 <= k < out@.len() ==> #[trigger] fin[k] == s@.subrange(out@[k].0 as int, out@[k].1 as int));
    assert(whole =~= fin);
    out
}

} // verus!
