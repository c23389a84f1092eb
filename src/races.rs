use vstd::prelude::*;

verus! {

/// A race: its length in milliseconds and the record distance to beat.
#[derive(Debug, Clone, Copy, PartialEq, Eq, Structural)]
pub struct Race {
    pub time: i64,
    pub distance: i64,
}

/// Holding the button `t` ms of a `time` ms race goes farther than `distance`.
pub open spec fn beats(time: int, distance: int, t: int) -> bool {
    t * (time - t) > distance
}

/// How many hold times from 1 up to but not including `k` beat the record.
pub open spec fn wins_below(time: int, distance: int, k: int) -> int
    decreases k,
{
    if k <= 1 {
        0
    } else {
        wins_below(time, distance, k - 1) + if beats(time, distance, k - 1) {
            1int
        } else {
            0int
        }
    }
}

/// The number of ways to win the race.
pub open spec fn ways(r: Race) -> int {
    wins_below(r.time as int, r.distance as int, r.time as int)
}

/// The product of the ways to win over the first `n` races.
pub open spec fn product_of_ways(races: Seq<Race>, n: int) -> int
    decreases n,
{
    if n <= 0 {
        1
    } else {
        product_of_ways(races, n - 1) * ways(races[n - 1])
    }
}

proof fn lemma_wins_bound(time: int, distance: int, k: int)
    ensures
        0 <= wins_below(time, distance, k) <= if k <= 1 {
            0
        } else {
            k - 1
        },
    decreases k,
{
    if k > 1 {
        lemma_wins_bound(time, distance, k - 1);
    }
}

impl Race {
    /// How many whole hold times from 1 up to `time - 1` ms beat the record.
    pub fn ways_to_win(&self) -> (r: i64)
        ensures
            r == ways(*self),
    {
        let time = self.time as i128;
        let mut count: i64 = 0;
        let mut t: i64 = 1;
        proof {
            lemma_wins_bound(self.time as int, self.distance as int, 1);
        }
        if self.time <= 1 {
            return 0;
        }
        while t < self.time
            invariant
                1 <= t <= self.time,
                time == self.time,
                count == wins_below(self.time as int, self.distance as int, t as int),
                0 <= count < t,
            decreases self.time - t,
        {
            let t128 = t as i128;
            proof {
                assert(0 < t128 * (time - t128) <= (i64::MAX as int) * (i64::MAX as int)) by (
                nonlinear_arith)
                    requires
                        0 < t128 < time <= i64::MAX,
                ;
            }
            if t128 * (time - t128) > self.distance as i128 {
                count += 1;
            }
            t += 1;
        }
        count
    }
}

/// The product of the ways to win each race; `None` where it leaves `i64`.
pub fn product_of_wins(races: &Vec<Race>) -> (r: Option<i64>)
    ensures
        product_of_ways(races@, races@.len() as int) <= i64::MAX ==> r == Some(
            product_of_ways(races@, races@.len() as int) as i64,
        ),
        product_of_ways(races@, races@.len() as int) > i64::MAX ==> r is None,
{
    let mut acc: i64 = 1;
    let mut i: usize = 0;
    while i < races.len()
        invariant
            i <= races@.len(),
            acc == product_of_ways(races@, i as int),
            acc >= 0,
        decreases races@.len() - i,
    {
        let w = races[i].ways_to_win();
        proof {
            lemma_wins_bound(races@[i as int].time as int, races@[i as int].distance as int, races@[i as int].time as int);
        }
        match acc.checked_mul(w) {
            Some(p) => {
                acc = p;
            },
            None => {
                let mut j: usize = i + 1;
                while j < races.len()
                    invariant
                        i < j <= races@.len(),
                        product_of_ways(races@, i + 1) > i64::MAX,
                        forall|q: int| i < q < j ==> ways(#[trigger] races@[q]) >= 1,
                    decreases races@.len() - j,
                {
                    let wj = races[j].ways_to_win();
                    if wj == 0 {
                        proof {
                            assert(product_of_ways(races@, j + 1) == product_of_ways(races@, j as int) * 0);
                            lemma_product_zero(races@, j + 1, races@.len() as int);
                        }
                        return Some(0);
                    }
                    proof {
                        let r = races@[j as int];
                        lemma_wins_bound(r.time as int, r.distance as int, r.time as int);
                    }
                    j += 1;
                }
                proof {
                    lemma_product_stays_large(races@, i as int + 1, races@.len() as int);
                }
                return None;
            },
        }
        i += 1;
    }
    Some(acc)
}

/// Once the product is past `i64::MAX`, factors of at least one keep it there.
proof fn lemma_product_stays_large(races: Seq<Race>, k: int, n: int)
    requires
        1 <= k <= n <= races.len(),
        product_of_ways(races, k) > i64::MAX,
        forall|q: int| k <= q < n ==> ways(#[trigger] races[q]) >= 1,
    ensures
        product_of_ways(races, n) > i64::MAX,
    decreases n - k,
{
    if k < n {
        let r = races[k];
        assert(ways(races[k]) >= 1);
        assert(product_of_ways(races, k) * ways(r) >= product_of_ways(races, k)) by (nonlinear_arith)
            requires
                product_of_ways(races, k) > 0,
                ways(r) >= 1,
        ;
        lemma_product_stays_large(races, k + 1, n);
    }
}

proof fn lemma_product_zero(races: Seq<Race>, k: int, n: int)
    requires
        1 <= k <= n <= races.len(),
        product_of_ways(races, k) == 0,
    ensures
        product_of_ways(races, n) == 0,
    decreases n - k,
{
    if k < n {
        assert(product_of_ways(races, k + 1) == 0 * ways(races[k]));
        lemma_product_zero(races, k + 1, n);
    }
}

} // verus!
