// Cube conundrum: which games are possible with a given bag, and the fewest cubes needed.
use vstd::prelude::*;

use crate::parse::{
    chars_of, decimal, decimal_in, line_ranges, lines, pattern_ranges, piece_ranges, pieces,
    split_pattern, sub_chars,
};
use crate::select;

verus! {

/// The red, green and blue cubes of one draw.
pub type GameDraw = [u32; 3];

/// One game: its number and its draws.
pub struct Game {
    pub index: u32,
    pub draws: Vec<GameDraw>,
}

/// The draws of `g` as sequences of three counts.
pub open spec fn draws_view(g: &Game) -> Seq<Seq<u32>> {
    g.draws@.map_values(|d: GameDraw| d@)
}

/// The count and color (0 red, 1 green, 2 blue) of `3 blue`-like text.
pub open spec fn cube_of(s: Seq<char>) -> Option<(u32, int)> {
    let ps = pieces(s, ' ');
    if ps.len() < 2 {
        None
    } else {
        match decimal(ps[0], u32::MAX as int) {
            None => None,
            Some(n) => {
                let color = ps[1];
                if color.len() > 0 && color[0] == 'r' {
                    Some((n as u32, 0))
                } else if color.len() > 0 && color[0] == 'g' {
                    Some((n as u32, 1))
                } else if color.len() > 0 && color[0] == 'b' {
                    Some((n as u32, 2))
                } else {
                    None
                }
            },
        }
    }
}

/// The counts per color that the cubes `cs` set, a later cube of a color replacing an earlier.
pub open spec fn draw_fold(cs: Seq<Seq<char>>) -> Option<Seq<u32>>
    decreases cs.len(),
{
    if cs.len() == 0 {
        Some(seq![0u32, 0u32, 0u32])
    } else {
        match (draw_fold(cs.drop_last()), cube_of(cs.last())) {
            (Some(r), Some((n, c))) => Some(r.update(c, n)),
            _ => None,
        }
    }
}

pub open spec fn comma() -> Seq<char> {
    seq![',', ' ']
}

pub open spec fn semicolon() -> Seq<char> {
    seq![';', ' ']
}

pub open spec fn colon() -> Seq<char> {
    seq![':', ' ']
}

pub open spec fn game_word() -> Seq<char> {
    seq!['G', 'a', 'm', 'e', ' ']
}

/// The draw that `s` spells, cubes separated by `, `.
pub open spec fn draw_of(s: Seq<char>) -> Option<Seq<u32>> {
    draw_fold(split_pattern(s, comma(), 0, 0))
}

/// The draws that `ds` spell, when each spells one.
pub open spec fn draws_of(ds: Seq<Seq<char>>) -> Option<Seq<Seq<u32>>>
    decreases ds.len(),
{
    if ds.len() == 0 {
        Some(Seq::empty())
    } else {
        match (draws_of(ds.drop_last()), draw_of(ds.last())) {
            (Some(v), Some(d)) => Some(v.push(d)),
            _ => None,
        }
    }
}

/// The number and draws of a line `Game n: draw; draw; ...`.
pub open spec fn game_of(line: Seq<char>) -> Option<(u32, Seq<Seq<u32>>)> {
    let parts = split_pattern(line, colon(), 0, 0);
    if parts.len() < 2 {
        None
    } else {
        let head = parts[0];
        if head.len() < 5 || head.take(5) != game_word() {
            None
        } else {
            match (
                decimal(head.skip(5), u32::MAX as int),
                draws_of(split_pattern(parts[1], semicolon(), 0, 0)),
            ) {
                (Some(i), Some(ds)) => Some((i as u32, ds)),
                _ => None,
            }
        }
    }
}

/// The games of `ls`, when every line spells one.
pub open spec fn games_of(ls: Seq<Seq<char>>) -> Option<Seq<(u32, Seq<Seq<u32>>)>>
    decreases ls.len(),
{
    if ls.len() == 0 {
        Some(Seq::empty())
    } else {
        match (games_of(ls.drop_last()), game_of(ls.last())) {
            (Some(v), Some(g)) => Some(v.push(g)),
            _ => None,
        }
    }
}

/// Reads `3 blue`-like text as a count and a color: 0 red, 1 green, 2 blue.
fn parse_input_cube(s: &Vec<char>) -> (r: Option<(u32, usize)>)
    ensures
        r matches Some(p) ==> cube_of(s@) == Some((p.0, p.1 as int)),
        r is None ==> cube_of(s@) is None,
{
    let parts = piece_ranges(s, ' ');
    if parts.len() < 2 {
        return None;
    }
    let count = match decimal_in(s, parts[0].0, parts[0].1, u32::MAX as u64) {
        Some(c) => c as u32,
        None => {
            return None;
        },
    };
    let (a, b) = parts[1];
    let ghost color = s@.subrange(a as int, b as int);
    if a < b {
        assert(color[0] == s@[a as int]);
        let first = s[a];
        if first == 'r' {
            Some((count, 0))
        } else if first == 'g' {
            Some((count, 1))
        } else if first == 'b' {
            Some((count, 2))
        } else {
            None
        }
    } else {
        None
    }
}

/// Reads one draw, cubes separated by `, `; a later cube of a color replaces an earlier one.
fn parse_input_draw(s: &Vec<char>) -> (r: Option<GameDraw>)
    ensures
        r matches Some(d) ==> draw_of(s@) == Some(d@),
        r is None ==> draw_of(s@) is None,
{
    let sep = [',', ' '];
    assert(sep@ =~= comma());
    let cubes = pattern_ranges(s, &sep);
    let ghost cs = split_pattern(s@, comma(), 0, 0);
    let mut result: GameDraw = [0, 0, 0];
    let mut k: usize = 0;
    assert(cs.take(0) =~= Seq::<Seq<char>>::empty());
    assert(result@ =~= seq![0u32, 0u32, 0u32]);
    while k < cubes.len()
        invariant
            cs == split_pattern(s@, comma(), 0, 0),
            cubes@.len() == cs.len(),
            forall|j: int| 0 <= j < cubes@.len() ==> (#[trigger] cubes@[j]).0 <= cubes@[j].1 <= s@.len(),
            forall|j: int|
                0 <= j < cubes@.len() ==> s@.subrange(cubes@[j].0 as int, cubes@[j].1 as int)
                    == #[trigger] cs[j],
            k <= cs.len(),
            draw_fold(cs.take(k as int)) == Some(result@),
        decreases cs.len() - k,
    {
        assert(cs.take(k + 1).drop_last() =~= cs.take(k as int));
        assert(cs.take(k + 1).last() == cs[k as int]);
        let cube = sub_chars(s, cubes[k]);
        match parse_input_cube(&cube) {
            Some((count, color)) => {
                let ghost before = result@;
                result = if color == 0 {
                    [count, result[1], result[2]]
                } else if color == 1 {
                    [result[0], count, result[2]]
                } else {
                    [result[0], result[1], count]
                };
                assert(result@ =~= before.update(color as int, count));
            },
            None => {
                proof {
                    lemma_draw_fold_prefix(cs, k + 1);
                }
                return None;
            },
        }
        k = k + 1;
    }
    assert(cs.take(k as int) =~= cs);
    Some(result)
}

proof fn lemma_draw_fold_prefix(cs: Seq<Seq<char>>, k: int)
    requires
        0 <= k <= cs.len(),
        draw_fold(cs.take(k)) is None,
    ensures
        draw_fold(cs) is None,
    decreases cs.len() - k,
{
    if k < cs.len() {
        assert(cs.take(k + 1).drop_last() =~= cs.take(k));
        lemma_draw_fold_prefix(cs, k + 1);
    } else {
        assert(cs.take(k) =~= cs);
    }
}

proof fn lemma_draws_prefix(ds: Seq<Seq<char>>, k: int)
    requires
        0 <= k <= ds.len(),
        draws_of(ds.take(k)) is None,
    ensures
        draws_of(ds) is None,
    decreases ds.len() - k,
{
    if k < ds.len() {
        assert(ds.take(k + 1).drop_last() =~= ds.take(k));
        lemma_draws_prefix(ds, k + 1);
    } else {
        assert(ds.take(k) =~= ds);
    }
}

proof fn lemma_games_prefix(ls: Seq<Seq<char>>, k: int)
    requires
        0 <= k <= ls.len(),
        games_of(ls.take(k)) is None,
    ensures
        games_of(ls) is None,
    decreases ls.len() - k,
{
    if k < ls.len() {
        assert(ls.take(k + 1).drop_last() =~= ls.take(k));
        lemma_games_prefix(ls, k + 1);
    } else {
        assert(ls.take(k) =~= ls);
    }
}

/// Reads one line, `Game n: draw; draw; ...`.
fn parse_input_line(line: &Vec<char>) -> (r: Option<Game>)
    ensures
        r matches Some(g) ==> game_of(line@) == Some((g.index, draws_view(&g))),
        r is None ==> game_of(line@) is None,
{
    let colon_sep = [':', ' '];
    assert(colon_sep@ =~= colon());
    let parts = pattern_ranges(line, &colon_sep);
    if parts.len() < 2 {
        return None;
    }
    let head = sub_chars(line, parts[0]);
    let word = ['G', 'a', 'm', 'e', ' '];
    assert(word@ =~= game_word());
    if head.len() < 5 {
        return None;
    }
    let mut k: usize = 0;
    while k < 5
        invariant
            head@.len() >= 5,
            split_pattern(line@, colon(), 0, 0).len() >= 2,
            head@ == split_pattern(line@, colon(), 0, 0)[0],
            k <= 5,
            word@ == game_word(),
            forall|j: int| 0 <= j < k ==> head@[j] == word@[j],
        decreases 5 - k,
    {
        if head[k] != word[k] {
            assert(head@.take(5)[k as int] != game_word()[k as int]);
            return None;
        }
        k = k + 1;
    }
    assert(head@.take(5) =~= game_word());
    let index = decimal_in(&head, 5, head.len(), u32::MAX as u64);
    assert(head@.subrange(5, head@.len() as int) =~= head@.skip(5));
    let rest = sub_chars(line, parts[1]);
    let semi = [';', ' '];
    assert(semi@ =~= semicolon());
    let draw_ranges = pattern_ranges(&rest, &semi);
    let ghost ds = split_pattern(rest@, semicolon(), 0, 0);
    let mut draws: Vec<GameDraw> = Vec::new();
    let mut j: usize = 0;
    assert(ds.take(0) =~= Seq::<Seq<char>>::empty());
    assert(draws@.map_values(|d: GameDraw| d@) =~= Seq::<Seq<u32>>::empty());
    while j < draw_ranges.len()
        invariant
            ds == split_pattern(rest@, semicolon(), 0, 0),
            split_pattern(line@, colon(), 0, 0).len() >= 2,
            head@ == split_pattern(line@, colon(), 0, 0)[0],
            rest@ == split_pattern(line@, colon(), 0, 0)[1],
            head@.len() >= 5,
            head@.take(5) == game_word(),
            draw_ranges@.len() == ds.len(),
            forall|i: int|
                0 <= i < draw_ranges@.len() ==> (#[trigger] draw_ranges@[i]).0 <= draw_ranges@[i].1
                    <= rest@.len(),
            forall|i: int|
                0 <= i < draw_ranges@.len() ==> rest@.subrange(
                    draw_ranges@[i].0 as int,
                    draw_ranges@[i].1 as int,
                ) == #[trigger] ds[i],
            j <= ds.len(),
            draws_of(ds.take(j as int)) == Some(draws@.map_values(|d: GameDraw| d@)),
        decreases ds.len() - j,
    {
        assert(ds.take(j + 1).drop_last() =~= ds.take(j as int));
        assert(ds.take(j + 1).last() == ds[j as int]);
        let text = sub_chars(&rest, draw_ranges[j]);
        match parse_input_draw(&text) {
            Some(d) => {
                let ghost before = draws@;
                draws.push(d);
                assert(draws@.map_values(|d: GameDraw| d@) =~= before.map_values(
                    |d: GameDraw| d@,
                ).push(d@));
            },
            None => {
                proof {
                    lemma_draws_prefix(ds, j + 1);
                }
                return None;
            },
        }
        j = j + 1;
    }
    assert(ds.take(j as int) =~= ds);
    match index {
        Some(i) => Some(Game { index: i as u32, draws }),
        None => None,
    }
}

/// Reads one game per line; `None` when a line is not a game.
pub fn parse_input(input: &str) -> (r: Option<Vec<Game>>)
    ensures
        r is Some <==> games_of(lines(input@)) is Some,
        r matches Some(v) ==> v@.len() == games_of(lines(input@)).unwrap().len() && forall|i: int|
            0 <= i < v@.len() ==> games_of(lines(input@)).unwrap()[i] == (
                (#[trigger] v@[i]).index,
                draws_view(&v@[i]),
            ),
{
    let chars = chars_of(input);
    let ranges = line_ranges(&chars);
    let ghost ls = lines(chars@);
    let mut out: Vec<Game> = Vec::new();
    let mut k: usize = 0;
    assert(ls.take(0) =~= Seq::<Seq<char>>::empty());
    while k < ranges.len()
        invariant
            chars@ == input@,
            ls == lines(chars@),
            ranges@.len() == ls.len(),
            forall|j: int|
                0 <= j < ranges@.len() ==> (#[trigger] ranges@[j]).0 <= ranges@[j].1
                    <= chars@.len(),
            forall|j: int|
                0 <= j < ranges@.len() ==> chars@.subrange(ranges@[j].0 as int, ranges@[j].1 as int)
                    == #[trigger] ls[j],
            k <= ranges@.len(),
            games_of(ls.take(k as int)) is Some,
            out@.len() == games_of(ls.take(k as int)).unwrap().len(),
            forall|i: int|
                0 <= i < out@.len() ==> games_of(ls.take(k as int)).unwrap()[i] == (
                    (#[trigger] out@[i]).index,
                    draws_view(&out@[i]),
                ),
        decreases ranges@.len() - k,
    {
        assert(ls.take(k + 1).drop_last() =~= ls.take(k as int));
        assert(ls.take(k + 1).last() == ls[k as int]);
        let line = sub_chars(&chars, ranges[k]);
        match parse_input_line(&line) {
            Some(g) => {
                out.push(g);
            },
            None => {
                proof {
                    lemma_games_prefix(ls, k + 1);
                }
                return None;
            },
        }
        k = k + 1;
    }
    assert(ls.take(k as int) =~= ls);
    Some(out)
}

/// A draw possible with 12 red, 13 green and 14 blue cubes.
pub open spec fn draw_ok(d: Seq<u32>) -> bool {
    d[0] <= 12 && d[1] <= 13 && d[2] <= 14
}

/// Every draw of `ds` is possible.
pub open spec fn game_ok(ds: Seq<Seq<u32>>) -> bool {
    forall|i: int| 0 <= i < ds.len() ==> #[trigger] draw_ok(ds[i])
}

pub open spec fn larger(a: int, b: int) -> int {
    if a >= b {
        a
    } else {
        b
    }
}

/// The fewest cubes of each color that make every draw of `ds` possible.
pub open spec fn min_cubes(ds: Seq<Seq<u32>>) -> Seq<int>
    decreases ds.len(),
{
    if ds.len() == 0 {
        seq![0int, 0int, 0int]
    } else {
        let m = min_cubes(ds.drop_last());
        let d = ds.last();
        seq![larger(m[0], d[0] as int), larger(m[1], d[1] as int), larger(m[2], d[2] as int)]
    }
}

/// The power of the fewest cubes fits in `u32`, multiplied left to right.
pub open spec fn power_ok(m: Seq<int>) -> bool {
    m[0] * m[1] <= u32::MAX && m[0] * m[1] * m[2] <= u32::MAX
}

pub open spec fn power(m: Seq<int>) -> int {
    m[0] * m[1] * m[2]
}

/// The sum of the numbers of the possible games.
pub open spec fn id_total(gs: Seq<(u32, Seq<Seq<u32>>)>) -> int
    decreases gs.len(),
{
    if gs.len() == 0 {
        0
    } else {
        id_total(gs.drop_last()) + (if game_ok(gs.last().1) {
            gs.last().0 as int
        } else {
            0
        })
    }
}

/// The sum of the powers of the fewest cubes of each game.
pub open spec fn power_total(gs: Seq<(u32, Seq<Seq<u32>>)>) -> int
    decreases gs.len(),
{
    if gs.len() == 0 {
        0
    } else {
        power_total(gs.drop_last()) + power(min_cubes(gs.last().1))
    }
}

/// Whether `draw` is possible with 12 red, 13 green and 14 blue cubes.
pub fn valid_draw(draw: &GameDraw) -> (r: bool)
    ensures
        r == draw_ok(draw@),
{
    draw[0] <= 12 && draw[1] <= 13 && draw[2] <= 14
}

/// Whether every draw of `game` is possible.
pub fn valid_game(game: &Game) -> (r: bool)
    ensures
        r == game_ok(draws_view(game)),
{
    let mut k: usize = 0;
    while k < game.draws.len()
        invariant
            k <= game.draws@.len(),
            forall|i: int| 0 <= i < k ==> #[trigger] draw_ok(draws_view(game)[i]),
        decreases game.draws@.len() - k,
    {
        if !valid_draw(&game.draws[k]) {
            assert(!draw_ok(draws_view(game)[k as int]));
            return false;
        }
        k = k + 1;
    }
    true
}

proof fn lemma_min_cubes(ds: Seq<Seq<u32>>)
    requires
        forall|i: int| 0 <= i < ds.len() ==> (#[trigger] ds[i]).len() == 3,
    ensures
        min_cubes(ds).len() == 3,
        forall|c: int| 0 <= c < 3 ==> 0 <= #[trigger] min_cubes(ds)[c] <= u32::MAX,
    decreases ds.len(),
{
    if ds.len() > 0 {
        lemma_min_cubes(ds.drop_last());
    }
}

/// The fewest cubes of each color that make every draw of `game` possible.
pub fn minimum_cubes(game: &Game) -> (r: GameDraw)
    ensures
        r@.map_values(|v: u32| v as int) == min_cubes(draws_view(game)),
{
    let mut result: GameDraw = [0, 0, 0];
    let ghost ds = draws_view(game);
    let mut k: usize = 0;
    assert(ds.take(0) =~= Seq::<Seq<u32>>::empty());
    assert(result@.map_values(|v: u32| v as int) =~= min_cubes(ds.take(0)));
    while k < game.draws.len()
        invariant
            ds == draws_view(game),
            k <= ds.len(),
            result@.map_values(|v: u32| v as int) == min_cubes(ds.take(k as int)),
        decreases ds.len() - k,
    {
        assert(ds.take(k + 1).drop_last() =~= ds.take(k as int));
        assert(ds.take(k + 1).last() == game.draws@[k as int]@);
        let draw = game.draws[k];
        let ghost m = min_cubes(ds.take(k as int));
        assert(result[0] as int == m[0] && result[1] as int == m[1] && result[2] as int == m[2]) by {
            assert(result@.map_values(|v: u32| v as int)[0] == m[0]);
            assert(result@.map_values(|v: u32| v as int)[1] == m[1]);
            assert(result@.map_values(|v: u32| v as int)[2] == m[2]);
        }
        result = [
            if result[0] >= draw[0] {
                result[0]
            } else {
                draw[0]
            },
            if result[1] >= draw[1] {
                result[1]
            } else {
                draw[1]
            },
            if result[2] >= draw[2] {
                result[2]
            } else {
                draw[2]
            },
        ];
        assert(result@.map_values(|v: u32| v as int) =~= min_cubes(ds.take(k + 1)));
        k = k + 1;
    }
    assert(ds.take(k as int) =~= ds);
    result
}

/// The number of `game` when it is possible, and zero when it is not.
pub fn part_one_each(game: &Game) -> (r: u32)
    ensures
        r == (if game_ok(draws_view(game)) {
            game.index
        } else {
            0
        }),
{
    select(valid_game(game), game.index, 0)
}

/// The power of the fewest cubes of `game`; `None` when it exceeds `u32::MAX`.
pub fn part_two_each(game: &Game) -> (r: Option<u32>)
    ensures
        r is Some <==> power_ok(min_cubes(draws_view(game))),
        r matches Some(v) ==> v as int == power(min_cubes(draws_view(game))),
{
    let m = minimum_cubes(game);
    let ghost mc = min_cubes(draws_view(game));
    assert(m[0] as int == mc[0] && m[1] as int == mc[1] && m[2] as int == mc[2]) by {
        assert(m@.map_values(|v: u32| v as int)[0] == mc[0]);
        assert(m@.map_values(|v: u32| v as int)[1] == mc[1]);
        assert(m@.map_values(|v: u32| v as int)[2] == mc[2]);
    }
    match m[0].checked_mul(m[1]) {
        Some(a) => a.checked_mul(m[2]),
        None => None,
    }
}

proof fn lemma_id_total(gs: Seq<(u32, Seq<Seq<u32>>)>, k: int)
    requires
        0 <= k <= gs.len(),
    ensures
        0 <= id_total(gs.take(k)) <= id_total(gs),
    decreases gs.len() - k,
{
    lemma_id_total_nonneg(gs.take(k));
    if k < gs.len() {
        assert(gs.take(k + 1).drop_last() =~= gs.take(k));
        lemma_id_total(gs, k + 1);
    } else {
        assert(gs.take(k) =~= gs);
    }
}

proof fn lemma_id_total_nonneg(gs: Seq<(u32, Seq<Seq<u32>>)>)
    ensures
        id_total(gs) >= 0,
    decreases gs.len(),
{
    if gs.len() > 0 {
        lemma_id_total_nonneg(gs.drop_last());
    }
}

proof fn lemma_power_total(gs: Seq<(u32, Seq<Seq<u32>>)>, k: int)
    requires
        0 <= k <= gs.len(),
        forall|i: int|
            0 <= i < gs.len() ==> forall|j: int|
                0 <= j < (#[trigger] gs[i]).1.len() ==> (#[trigger] gs[i].1[j]).len() == 3,
    ensures
        0 <= power_total(gs.take(k)) <= power_total(gs),
    decreases gs.len() - k,
{
    lemma_power_total_nonneg(gs.take(k));
    if k < gs.len() {
        assert(gs.take(k + 1).drop_last() =~= gs.take(k));
        lemma_power_total(gs, k + 1);
        lemma_min_cubes(gs[k].1);
        let m = min_cubes(gs[k].1);
        assert(m[0] * m[1] >= 0) by (nonlinear_arith)
            requires
                m[0] >= 0,
                m[1] >= 0,
        ;
        assert(m[0] * m[1] * m[2] >= 0) by (nonlinear_arith)
            requires
                m[0] * m[1] >= 0,
                m[2] >= 0,
        ;
    } else {
        assert(gs.take(k) =~= gs);
    }
}

proof fn lemma_power_total_nonneg(gs: Seq<(u32, Seq<Seq<u32>>)>)
    requires
        forall|i: int|
            0 <= i < gs.len() ==> forall|j: int|
                0 <= j < (#[trigger] gs[i]).1.len() ==> (#[trigger] gs[i].1[j]).len() == 3,
    ensures
        power_total(gs) >= 0,
    decreases gs.len(),
{
    if gs.len() > 0 {
        assert forall|i: int| 0 <= i < gs.drop_last().len() implies forall|j: int|
            0 <= j < (#[trigger] gs.drop_last()[i]).1.len() ==> (#[trigger] gs.drop_last()[i].1[j]).len()
                == 3 by {
            assert(gs.drop_last()[i] == gs[i]);
        }
        lemma_power_total_nonneg(gs.drop_last());
        lemma_min_cubes(gs.last().1);
        let m = min_cubes(gs.last().1);
        assert(m[0] * m[1] >= 0) by (nonlinear_arith)
            requires
                m[0] >= 0,
                m[1] >= 0,
        ;
        assert(m[0] * m[1] * m[2] >= 0) by (nonlinear_arith)
            requires
                m[0] * m[1] >= 0,
                m[2] >= 0,
        ;
    }
}

/// The sum of the numbers of the games possible with 12 red, 13 green and 14 blue cubes;
/// `None` when a line is not a game or the sum exceeds `u32::MAX`.
pub fn part_one(input: &str) -> (r: Option<u32>)
    ensures
        r is Some <==> (games_of(lines(input@)) matches Some(gs) && id_total(gs) <= u32::MAX),
        r matches Some(v) ==> id_total(games_of(lines(input@)).unwrap()) == v as int,
{
    let games = match parse_input(input) {
        Some(g) => g,
        None => {
            return None;
        },
    };
    let ghost gs = games_of(lines(input@)).unwrap();
    let mut total: u32 = 0;
    let mut k: usize = 0;
    assert(gs.take(0) =~= Seq::<(u32, Seq<Seq<u32>>)>::empty());
    while k < games.len()
        invariant
            games_of(lines(input@)) == Some(gs),
            games@.len() == gs.len(),
            forall|i: int|
                0 <= i < games@.len() ==> gs[i] == ((#[trigger] games@[i]).index, draws_view(
                    &games@[i],
                )),
            k <= gs.len(),
            total as int == id_total(gs.take(k as int)),
        decreases gs.len() - k,
    {
        assert(gs.take(k + 1).drop_last() =~= gs.take(k as int));
        assert(gs.take(k + 1).last() == gs[k as int]);
        assert(gs[k as int] == (games@[k as int].index, draws_view(&games@[k as int])));
        let v = part_one_each(&games[k]);
        match total.checked_add(v) {
            Some(t) => {
                total = t;
            },
            None => {
                proof {
                    lemma_id_total(gs, k + 1);
                }
                return None;
            },
        }
        k = k + 1;
    }
    assert(gs.take(k as int) =~= gs);
    Some(total)
}

/// The sum of the powers of the fewest cubes of each game; `None` when a line is not a game,
/// or a power or the sum exceeds `u32::MAX`.
pub fn part_two(input: &str) -> (r: Option<u32>)
    ensures
        r is Some <==> (games_of(lines(input@)) matches Some(gs) && (forall|i: int|
            0 <= i < gs.len() ==> #[trigger] power_ok(min_cubes(gs[i].1))) && power_total(gs)
            <= u32::MAX),
        r matches Some(v) ==> power_total(games_of(lines(input@)).unwrap()) == v as int,
{
    let games = match parse_input(input) {
        Some(g) => g,
        None => {
            return None;
        },
    };
    let ghost gs = games_of(lines(input@)).unwrap();
    assert forall|i: int| 0 <= i < gs.len() implies forall|j: int|
        0 <= j < (#[trigger] gs[i]).1.len() ==> (#[trigger] gs[i].1[j]).len() == 3 by {
        assert(gs[i] == (games@[i].index, draws_view(&games@[i])));
    }
    let mut total: u32 = 0;
    let mut k: usize = 0;
    assert(gs.take(0) =~= Seq::<(u32, Seq<Seq<u32>>)>::empty());
    while k < games.len()
        invariant
            games_of(lines(input@)) == Some(gs),
            games@.len() == gs.len(),
            forall|i: int|
                0 <= i < games@.len() ==> gs[i] == ((#[trigger] games@[i]).index, draws_view(
                    &games@[i],
                )),
            forall|i: int|
                0 <= i < gs.len() ==> forall|j: int|
                    0 <= j < (#[trigger] gs[i]).1.len() ==> (#[trigger] gs[i].1[j]).len() == 3,
            forall|i: int| 0 <= i < k ==> #[trigger] power_ok(min_cubes(gs[i].1)),
            k <= gs.len(),
            total as int == power_total(gs.take(k as int)),
        decreases gs.len() - k,
    {
        assert(gs.take(k + 1).drop_last() =~= gs.take(k as int));
        assert(gs.take(k + 1).last() == gs[k as int]);
        assert(gs[k as int] == (games@[k as int].index, draws_view(&games@[k as int])));
        let v = match part_two_each(&games[k]) {
            Some(v) => v,
            None => {
                return None;
            },
        };
        match total.checked_add(v) {
            Some(t) => {
                total = t;
            },
            None => {
                proof {
                    lemma_power_total(gs, k + 1);
                }
                return None;
            },
        }
        k = k + 1;
    }
    assert(gs.take(k as int) =~= gs);
    Some(total)
}

} // verus!
