use vstd::prelude::*;

verus! {

/// One handful of cubes shown from the bag.
#[derive(Debug, Clone, Copy, PartialEq, Eq, Structural)]
pub struct Draw {
    pub red: i64,
    pub green: i64,
    pub blue: i64,
}

/// A game: its number and the handfuls shown in it.
#[derive(Debug)]
pub struct Game {
    pub num: i64,
    pub draws: Vec<Draw>,
}

/// The bag holds 12 red, 13 green and 14 blue cubes.
pub const MAX_RED: i64 = 12;

pub const MAX_GREEN: i64 = 13;

pub const MAX_BLUE: i64 = 14;

pub open spec fn draw_fits(d: Draw) -> bool {
    d.red <= MAX_RED && d.green <= MAX_GREEN && d.blue <= MAX_BLUE
}

pub open spec fn max_of(a: int, b: int) -> int {
    if a >= b {
        a
    } else {
        b
    }
}

/// The most red, green and blue cubes shown in the first `n` draws, starting from
/// zero.
pub open spec fn fewest(draws: Seq<Draw>, n: int) -> (int, int, int)
    decreases n,
{
    if n <= 0 {
        (0, 0, 0)
    } else {
        let acc = fewest(draws, n - 1);
        let d = draws[n - 1];
        (max_of(acc.0, d.red as int), max_of(acc.1, d.green as int), max_of(acc.2, d.blue as int))
    }
}

/// The power of the fewest cubes that make the draws possible.
pub open spec fn power_of(draws: Seq<Draw>) -> int {
    let f = fewest(draws, draws.len() as int);
    f.0 * f.1 * f.2
}

proof fn lemma_fewest_bounds(draws: Seq<Draw>, n: int)
    requires
        0 <= n <= draws.len(),
    ensures
        0 <= fewest(draws, n).0 <= i64::MAX,
        0 <= fewest(draws, n).1 <= i64::MAX,
        0 <= fewest(draws, n).2 <= i64::MAX,
    decreases n,
{
    if n > 0 {
        lemma_fewest_bounds(draws, n - 1);
    }
}

impl Game {
    /// The most red, green and blue cubes shown in one draw.
    fn fewest_cubes(&self) -> (r: (i64, i64, i64))
        ensures
            (r.0 as int, r.1 as int, r.2 as int) == fewest(self.draws@, self.draws@.len() as int),
    {
        let ghost ds = self.draws@;
        let mut red: i64 = 0;
        let mut green: i64 = 0;
        let mut blue: i64 = 0;
        let mut i: usize = 0;
        while i < self.draws.len()
            invariant
                ds == self.draws@,
                i <= ds.len(),
                (red as int, green as int, blue as int) == fewest(ds, i as int),
            decreases ds.len() - i,
        {
            let d = self.draws[i];
            if d.red > red {
                red = d.red;
            }
            if d.green > green {
                green = d.green;
            }
            if d.blue > blue {
                blue = d.blue;
            }
            i += 1;
        }
        (red, green, blue)
    }

    /// No draw shows more cubes of a colour than the bag holds.
    pub fn is_possible(&self) -> (r: bool)
        ensures
            r == forall|i: int| 0 <= i < self.draws@.len() ==> draw_fits(#[trigger] self.draws@[i]),
    {
        let mut i: usize = 0;
        while i < self.draws.len()
            invariant
                i <= self.draws@.len(),
                forall|j: int| 0 <= j < i ==> draw_fits(#[trigger] self.draws@[j]),
            decreases self.draws@.len() - i,
        {
            let d = self.draws[i];
            if d.red > MAX_RED || d.green > MAX_GREEN || d.blue > MAX_BLUE {
                assert(!draw_fits(self.draws@[i as int]));
                return false;
            }
            i += 1;
        }
        true
    }

    /// The product of the most red, green and blue cubes shown in one draw.
    pub fn power(&self) -> (r: i64)
        requires
            power_of(self.draws@) <= i64::MAX,
        ensures
            r == power_of(self.draws@),
    {
        let ghost ds = self.draws@;
        let (red, green, blue) = self.fewest_cubes();
        proof {
            lemma_fewest_bounds(ds, ds.len() as int);
            assert(0 <= red * green) by (nonlinear_arith)
                requires
                    0 <= red,
                    0 <= green,
            ;
            assert(red * green <= red * green * blue || blue == 0) by (nonlinear_arith)
                requires
                    0 <= red,
                    0 <= green,
                    0 <= blue,
            ;
        }
        let rg = if blue == 0 {
            0
        } else {
            red * green
        };
        proof {
            assert(rg * blue == red * green * blue) by (nonlinear_arith)
                requires
                    rg == (if blue == 0 { 0 } else { red * green }),
            ;
        }
        rg * blue
    }
}

/// The sum of `f` over the first `n` games.
pub open spec fn sum_of(games: Seq<Game>, n: int, f: spec_fn(Game) -> int) -> int
    decreases n,
{
    if n <= 0 {
        0
    } else {
        sum_of(games, n - 1, f) + f(games[n - 1])
    }
}

/// A game counts with its number where it is possible, else with nothing.
pub open spec fn possible_num(g: Game) -> int {
    if forall|i: int| 0 <= i < g.draws@.len() ==> draw_fits(#[trigger] g.draws@[i]) {
        g.num as int
    } else {
        0
    }
}

pub open spec fn game_power(g: Game) -> int {
    power_of(g.draws@)
}

pub open spec fn in_i64(x: int) -> bool {
    i64::MIN <= x <= i64::MAX
}

/// The sum of the numbers of the possible games; `None` where it leaves `i64`.
pub fn sum_possible_games(games: &Vec<Game>) -> (r: Option<i64>)
    ensures
        in_i64(sum_of(games@, games@.len() as int, |g: Game| possible_num(g))) ==> r == Some(
            sum_of(games@, games@.len() as int, |g: Game| possible_num(g)) as i64,
        ),
        !in_i64(sum_of(games@, games@.len() as int, |g: Game| possible_num(g))) ==> r is None,
{
    let ghost f = |g: Game| possible_num(g);
    let mut acc: i128 = 0;
    let mut i: usize = 0;
    while i < games.len()
        invariant
            f == (|g: Game| possible_num(g)),
            i <= games@.len(),
            acc == sum_of(games@, i as int, f),
            i * (i64::MIN as int) <= acc <= i * (i64::MAX as int),
            i <= usize::MAX,
        decreases games@.len() - i,
    {
        let ok = games[i].is_possible();
        if ok {
            acc = acc + games[i].num as i128;
        }
        i += 1;
    }
    if acc < i64::MIN as i128 || acc > i64::MAX as i128 {
        None
    } else {
        Some(acc as i64)
    }
}

/// The sum of the powers of all games; `None` where a power or the sum leaves `i64`.
pub fn sum_of_powers(games: &Vec<Game>) -> (r: Option<i64>)
    ensures
        (forall|i: int| 0 <= i < games@.len() ==> power_of(#[trigger] games@[i].draws@) <= i64::MAX)
            && in_i64(sum_of(games@, games@.len() as int, |g: Game| game_power(g))) ==> r == Some(
            sum_of(games@, games@.len() as int, |g: Game| game_power(g)) as i64,
        ),
        !((forall|i: int| 0 <= i < games@.len() ==> power_of(#[trigger] games@[i].draws@) <= i64::MAX)
            && in_i64(sum_of(games@, games@.len() as int, |g: Game| game_power(g)))) ==> r is None,
{
    let ghost f = |g: Game| game_power(g);
    let mut acc: i128 = 0;
    let mut i: usize = 0;
    while i < games.len()
        invariant
            f == (|g: Game| game_power(g)),
            i <= games@.len(),
            acc == sum_of(games@, i as int, f),
            forall|j: int| 0 <= j < i ==> power_of(#[trigger] games@[j].draws@) <= i64::MAX,
            i * (i64::MIN as int) <= acc <= i * (i64::MAX as int),
        decreases games@.len() - i,
    {
        let g = &games[i];
        proof {
            lemma_fewest_bounds(g.draws@, g.draws@.len() as int);
            let fw = fewest(g.draws@, g.draws@.len() as int);
            assert(0 <= fw.0 * fw.1 * fw.2) by (nonlinear_arith)
                requires
                    0 <= fw.0,
                    0 <= fw.1,
                    0 <= fw.2,
            ;
        }
        if !fits_power(g) {
            return None;
        }
        acc = acc + g.power() as i128;
        i += 1;
    }
    if acc < i64::MIN as i128 || acc > i64::MAX as i128 {
        None
    } else {
        Some(acc as i64)
    }
}

/// Whether the power of `g` fits in `i64`, found without overflow.
fn fits_power(g: &Game) -> (r: bool)
    ensures
        r == (power_of(g.draws@) <= i64::MAX),
{
    let ghost ds = g.draws@;
    let (red, green, blue) = g.fewest_cubes();
    proof {
        lemma_fewest_bounds(ds, ds.len() as int);
    }
    proof {
        assert(0 <= (red as int) * (green as int) <= (i64::MAX as int) * (i64::MAX as int)) by (nonlinear_arith)
            requires
                0 <= red <= i64::MAX,
                0 <= green <= i64::MAX,
        ;
    }
    let p = (red as i128) * (green as i128);
    if p > i64::MAX as i128 {
        proof {
            let (a, b, c) = (red as int, green as int, blue as int);
            assert(c == 0 ==> a * b * c == 0) by (nonlinear_arith);
            assert(c >= 1 ==> a * b <= a * b * c) by (nonlinear_arith)
                requires
                    0 <= a,
                    0 <= b,
            ;
        }
        return blue == 0;
    }
    proof {
        assert(0 <= p * (blue as int) <= (i64::MAX as int) * (i64::MAX as int)) by (nonlinear_arith)
            requires
                0 <= p <= i64::MAX,
                0 <= blue <= i64::MAX,
        ;
    }
    let q = p * (blue as i128);
    q <= i64::MAX as i128
}

} // verus!
