// Dive: steering a submarine by commands, with and without aim.
use vstd::prelude::*;

use crate::parse::{
    chars_of, digits_value, is_digit, line_ranges, lines, sub_chars, word_ranges, words,
};

verus! {

/// One command of the course.
#[derive(Clone, Copy, Debug, PartialEq, Eq, Structural)]
pub enum Command {
    F(i32),
    D(i32),
    U(i32),
}

/// `s` without one leading sign.
pub open spec fn signed_body(s: Seq<char>) -> Seq<char> {
    if s.len() > 0 && (s[0] == '-' || s[0] == '+') {
        s.drop_first()
    } else {
        s
    }
}

/// The `i32` that `s` spells in decimal (an optional sign, then at least one digit).
pub open spec fn signed_decimal(s: Seq<char>) -> Option<int> {
    let negative = s.len() > 0 && s[0] == '-';
    let d = signed_body(s);
    if d.len() > 0 && (forall|i: int| 0 <= i < d.len() ==> is_digit(#[trigger] d[i])) {
        let v = if negative {
            -digits_value(d)
        } else {
            digits_value(d)
        };
        if i32::MIN <= v <= i32::MAX {
            Some(v)
        } else {
            None
        }
    } else {
        None
    }
}

/// The command a line spells: a direction word, then an `i32`.
pub open spec fn command_of(line: Seq<char>) -> Option<Command> {
    let ws = words(line);
    if ws.len() < 2 {
        None
    } else {
        match signed_decimal(ws[1]) {
            None => None,
            Some(v) => if ws[0] == seq!['f', 'o', 'r', 'w', 'a', 'r', 'd'] {
                Some(Command::F(v as i32))
            } else if ws[0] == seq!['d', 'o', 'w', 'n'] {
                Some(Command::D(v as i32))
            } else if ws[0] == seq!['u', 'p'] {
                Some(Command::U(v as i32))
            } else {
                None
            },
        }
    }
}

/// The commands of `ls`, when every line spells one.
pub open spec fn commands_of(ls: Seq<Seq<char>>) -> Option<Seq<Command>>
    decreases ls.len(),
{
    if ls.len() == 0 {
        Some(Seq::empty())
    } else {
        match (commands_of(ls.drop_last()), command_of(ls.last())) {
            (Some(v), Some(c)) => Some(v.push(c)),
            _ => None,
        }
    }
}

pub open spec fn fits_i32(v: int) -> bool {
    i32::MIN <= v <= i32::MAX
}

/// Position and depth after the commands `cs`, forward moving ahead and down and up
/// changing the depth; `None` once a value leaves the range of `i32`.
pub open spec fn plain_course(cs: Seq<Command>) -> Option<(int, int)>
    decreases cs.len(),
{
    if cs.len() == 0 {
        Some((0, 0))
    } else {
        match plain_course(cs.drop_last()) {
            None => None,
            Some((p, d)) => {
                let (p2, d2) = match cs.last() {
                    Command::F(n) => (p + n, d),
                    Command::D(n) => (p, d + n),
                    Command::U(n) => (p, d - n),
                };
                if fits_i32(p2) && fits_i32(d2) {
                    Some((p2, d2))
                } else {
                    None
                }
            },
        }
    }
}

/// Position, depth and aim after the commands `cs`, down and up changing the aim and forward
/// moving ahead and by the aim times the distance down; `None` once a value leaves the range
/// of `i32`.
pub open spec fn aimed_course(cs: Seq<Command>) -> Option<(int, int, int)>
    decreases cs.len(),
{
    if cs.len() == 0 {
        Some((0, 0, 0))
    } else {
        match aimed_course(cs.drop_last()) {
            None => None,
            Some((p, d, a)) => match cs.last() {
                Command::F(n) => if fits_i32(p + n) && fits_i32(n * a) && fits_i32(d + n * a) {
                    Some((p + n, d + n * a, a))
                } else {
                    None
                },
                Command::D(n) => if fits_i32(a + n) {
                    Some((p, d, a + n))
                } else {
                    None
                },
                Command::U(n) => if fits_i32(a - n) {
                    Some((p, d, a - n))
                } else {
                    None
                },
            },
        }
    }
}

/// Reads `chars[range.0..range.1]` as an `i32` in decimal.
fn parse_i32(chars: &Vec<char>, range: (usize, usize)) -> (r: Option<i32>)
    requires
        range.0 <= range.1 <= chars@.len(),
    ensures
        r matches Some(v) ==> signed_decimal(chars@.subrange(range.0 as int, range.1 as int))
            == Some(v as int),
        r is None ==> signed_decimal(chars@.subrange(range.0 as int, range.1 as int)) is None,
{
    let ghost s = chars@.subrange(range.0 as int, range.1 as int);
    let (start, end) = range;
    let mut first = start;
    let mut negative = false;
    if start < end && (chars[start] == '-' || chars[start] == '+') {
        negative = chars[start] == '-';
        first = start + 1;
    }
    let ghost d = chars@.subrange(first as int, end as int);
    assert(d =~= signed_body(s));
    if first == end {
        return None;
    }
    let limit: u64 = if negative {
        2147483648
    } else {
        2147483647
    };
    let mut value: u64 = 0;
    let mut over = false;
    let mut i = first;
    while i < end
        invariant
            start <= first < end <= chars@.len(),
            first <= i <= end,
            d == chars@.subrange(first as int, end as int),
            s == chars@.subrange(start as int, end as int),
            start == range.0 && end == range.1,
            d == signed_body(s),
            negative == (s.len() > 0 && s[0] == '-'),
            limit == (if negative {
                2147483648u64
            } else {
                2147483647u64
            }),
            forall|k: int| first <= k < i ==> is_digit(#[trigger] chars@[k]),
            over ==> digits_value(chars@.subrange(first as int, i as int)) > limit,
            !over ==> digits_value(chars@.subrange(first as int, i as int)) == value as int,
            !over ==> value <= limit,
        decreases end - i,
    {
        let c = chars[i];
        if !('0' <= c && c <= '9') {
            assert(!is_digit(d[i - first]));
            return None;
        }
        let ghost prefix = chars@.subrange(first as int, i as int);
        let ghost next = chars@.subrange(first as int, i + 1);
        assert(next.drop_last() =~= prefix);
        proof {
            lemma_digits_nonneg(prefix);
        }
        if !over {
            let v = value * 10 + (c as u32 - '0' as u32) as u64;
            if v <= limit {
                value = v;
            } else {
                over = true;
            }
        }
        i = i + 1;
    }
    assert(chars@.subrange(first as int, i as int) =~= d);
    if over {
        return None;
    }
    if negative {
        Some((0 - value as i64) as i32)
    } else {
        Some(value as i32)
    }
}

proof fn lemma_digits_nonneg(s: Seq<char>)
    requires
        forall|i: int| 0 <= i < s.len() ==> is_digit(#[trigger] s[i]),
    ensures
        digits_value(s) >= 0,
    decreases s.len(),
{
    if s.len() > 0 {
        lemma_digits_nonneg(s.drop_last());
    }
}

/// Whether `chars[range.0..range.1]` is `word`.
fn word_equals(chars: &Vec<char>, range: (usize, usize), word: &[char]) -> (r: bool)
    requires
        range.0 <= range.1 <= chars@.len(),
    ensures
        r == (chars@.subrange(range.0 as int, range.1 as int) == word@),
{
    if range.1 - range.0 != word.len() {
        return false;
    }
    let mut k: usize = 0;
    while k < word.len()
        invariant
            range.0 <= range.1 <= chars@.len(),
            range.1 - range.0 == word@.len(),
            k <= word@.len(),
            forall|j: int| 0 <= j < k ==> chars@[range.0 + j] == word@[j],
        decreases word@.len() - k,
    {
        if chars[range.0 + k] != word[k] {
            assert(chars@.subrange(range.0 as int, range.1 as int)[k as int] != word@[k as int]);
            return false;
        }
        k = k + 1;
    }
    assert(chars@.subrange(range.0 as int, range.1 as int) =~= word@);
    true
}

/// Reads one command, `forward`, `down` or `up` and a distance.
fn parse_input_line(line: &Vec<char>) -> (r: Option<Command>)
    ensures
        r == command_of(line@),
{
    let parts = word_ranges(line);
    if parts.len() < 2 {
        return None;
    }
    let val = match parse_i32(line, parts[1]) {
        Some(v) => v,
        None => {
            return None;
        },
    };
    let forward = ['f', 'o', 'r', 'w', 'a', 'r', 'd'];
    let down = ['d', 'o', 'w', 'n'];
    let up = ['u', 'p'];
    assert(forward@ =~= seq!['f', 'o', 'r', 'w', 'a', 'r', 'd']);
    assert(down@ =~= seq!['d', 'o', 'w', 'n']);
    assert(up@ =~= seq!['u', 'p']);
    if word_equals(line, parts[0], &forward) {
        Some(Command::F(val))
    } else if word_equals(line, parts[0], &down) {
        Some(Command::D(val))
    } else if word_equals(line, parts[0], &up) {
        Some(Command::U(val))
    } else {
        None
    }
}

proof fn lemma_commands_prefix(ls: Seq<Seq<char>>, k: int)
    requires
        0 <= k <= ls.len(),
        commands_of(ls.take(k)) is None,
    ensures
        commands_of(ls) is None,
    decreases ls.len() - k,
{
    if k < ls.len() {
        assert(ls.take(k + 1).drop_last() =~= ls.take(k));
        lemma_commands_prefix(ls, k + 1);
    } else {
        assert(ls.take(k) =~= ls);
    }
}

/// Reads one command per line; `None` when a line is not a command.
pub fn parse_input(input: &str) -> (r: Option<Vec<Command>>)
    ensures
        r is Some <==> commands_of(lines(input@)) is Some,
        r matches Some(v) ==> v@ == commands_of(lines(input@)).unwrap(),
{
    let chars = chars_of(input);
    let ranges = line_ranges(&chars);
    let ghost ls = lines(chars@);
    let mut out: Vec<Command> = Vec::new();
    let mut k: usize = 0;
    assert(ls.take(0) =~= Seq::<Seq<char>>::empty());
    while k < ranges.len()
        invariant
            chars@ == input@,
            ls == lines(chars@),
            ranges@.len() == ls.len(),
            forall|j: int|
                0 <= j < ranges@.len() ==> (#[trigger] ranges@[j]).0 <= ranges@[j].1
                    <= chars@.len(),
            forall|j: int|
                0 <= j < ranges@.len() ==> chars@.subrange(ranges@[j].0 as int, ranges@[j].1 as int)
                    == #[trigger] ls[j],
            k <= ranges@.len(),
            commands_of(ls.take(k as int)) == Some(out@),
        decreases ranges@.len() - k,
    {
        assert(ls.take(k + 1).drop_last() =~= ls.take(k as int));
        assert(ls.take(k + 1).last() == ls[k as int]);
        let line = sub_chars(&chars, ranges[k]);
        match parse_input_line(&line) {
            Some(c) => {
                out.push(c);
            },
            None => {
                proof {
                    lemma_commands_prefix(ls, k + 1);
                }
                return None;
            },
        }
        k = k + 1;
    }
    assert(ls.take(k as int) =~= ls);
    Some(out)
}

proof fn lemma_plain_prefix(cs: Seq<Command>, k: int)
    requires
        0 <= k <= cs.len(),
        plain_course(cs.take(k)) is None,
    ensures
        plain_course(cs) is None,
    decreases cs.len() - k,
{
    if k < cs.len() {
        assert(cs.take(k + 1).drop_last() =~= cs.take(k));
        lemma_plain_prefix(cs, k + 1);
    } else {
        assert(cs.take(k) =~= cs);
    }
}

proof fn lemma_aimed_prefix(cs: Seq<Command>, k: int)
    requires
        0 <= k <= cs.len(),
        aimed_course(cs.take(k)) is None,
    ensures
        aimed_course(cs) is None,
    decreases cs.len() - k,
{
    if k < cs.len() {
        assert(cs.take(k + 1).drop_last() =~= cs.take(k));
        lemma_aimed_prefix(cs, k + 1);
    } else {
        assert(cs.take(k) =~= cs);
    }
}

/// The final position times the final depth, forward moving ahead and down and up changing
/// the depth; `None` when a line is not a command or a value leaves the range of `i32`.
pub fn part_one(input: &str) -> (r: Option<i32>)
    ensures
        r is Some <==> (commands_of(lines(input@)) matches Some(cs) && plain_course(cs) matches Some(
            pd,
        ) && fits_i32(pd.0 * pd.1)),
        r matches Some(v) ==> ({
            let pd = plain_course(commands_of(lines(input@)).unwrap()).unwrap();
            v as int == pd.0 * pd.1
        }),
{
    let commands = match parse_input(input) {
        Some(c) => c,
        None => {
            return None;
        },
    };
    let ghost cs = commands@;
    let mut position: i32 = 0;
    let mut depth: i32 = 0;
    let mut k: usize = 0;
    assert(cs.take(0) =~= Seq::<Command>::empty());
    while k < commands.len()
        invariant
            cs == commands@,
            commands_of(lines(input@)) == Some(cs),
            k <= cs.len(),
            plain_course(cs.take(k as int)) == Some((position as int, depth as int)),
        decreases cs.len() - k,
    {
        assert(cs.take(k + 1).drop_last() =~= cs.take(k as int));
        assert(cs.take(k + 1).last() == cs[k as int]);
        let next = match commands[k] {
            Command::F(n) => match position.checked_add(n) {
                Some(p) => Some((p, depth)),
                None => None,
            },
            Command::D(n) => match depth.checked_add(n) {
                Some(d) => Some((position, d)),
                None => None,
            },
            Command::U(n) => match depth.checked_sub(n) {
                Some(d) => Some((position, d)),
                None => None,
            },
        };
        match next {
            Some((p, d)) => {
                position = p;
                depth = d;
            },
            None => {
                proof {
                    lemma_plain_prefix(cs, k + 1);
                }
                return None;
            },
        }
        k = k + 1;
    }
    assert(cs.take(k as int) =~= cs);
    position.checked_mul(depth)
}

/// The final position times the final depth, down and up changing the aim and forward moving
/// ahead and by the aim times the distance down; `None` when a line is not a command or a
/// value leaves the range of `i32`.
pub fn part_two(input: &str) -> (r: Option<i32>)
    ensures
        r is Some <==> (commands_of(lines(input@)) matches Some(cs) && aimed_course(cs) matches Some(
            pda,
        ) && fits_i32(pda.0 * pda.1)),
        r matches Some(v) ==> ({
            let pda = aimed_course(commands_of(lines(input@)).unwrap()).unwrap();
            v as int == pda.0 * pda.1
        }),
{
    let commands = match parse_input(input) {
        Some(c) => c,
        None => {
            return None;
        },
    };
    let ghost cs = commands@;
    let mut position: i32 = 0;
    let mut depth: i32 = 0;
    let mut aim: i32 = 0;
    let mut k: usize = 0;
    assert(cs.take(0) =~= Seq::<Command>::empty());
    while k < commands.len()
        invariant
            cs == commands@,
            commands_of(lines(input@)) == Some(cs),
            k <= cs.len(),
            aimed_course(cs.take(k as int)) == Some((position as int, depth as int, aim as int)),
        decreases cs.len() - k,
    {
        assert(cs.take(k + 1).drop_last() =~= cs.take(k as int));
        assert(cs.take(k + 1).last() == cs[k as int]);
        let next = match commands[k] {
            Command::F(n) => match (position.checked_add(n), n.checked_mul(aim)) {
                (Some(p), Some(m)) => match depth.checked_add(m) {
                    Some(d) => Some((p, d, aim)),
                    None => None,
                },
                _ => None,
            },
            Command::D(n) => match aim.checked_add(n) {
                Some(a) => Some((position, depth, a)),
                None => None,
            },
            Command::U(n) => match aim.checked_sub(n) {
                Some(a) => Some((position, depth, a)),
                None => None,
            },
        };
        match next {
            Some((p, d, a)) => {
                position = p;
                depth = d;
                aim = a;
            },
            None => {
                proof {
                    lemma_aimed_prefix(cs, k + 1);
                }
                return None;
            },
        }
        k = k + 1;
    }
    assert(cs.take(k as int) =~= cs);
    position.checked_mul(depth)
}

} // verus!
