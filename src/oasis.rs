use vstd::prelude::*;

verus! {

/// A history and the rows of differences below it, down to a row of zeros or a
/// row of one value.
#[derive(Debug)]
pub struct Pyramid {
    pub data: Vec<Vec<i64>>,
}

/// The differences between neighbours of `s`.
pub open spec fn diffs(s: Seq<int>) -> Seq<int> {
    Seq::new((s.len() - 1) as nat, |i: int| s[i + 1] - s[i])
}

/// Row `k` of the pyramid over `s`: `s` itself, then each row the differences of
/// the one above.
pub open spec fn row(s: Seq<int>, k: nat) -> Seq<int>
    decreases k,
{
    if k == 0 {
        s
    } else {
        diffs(row(s, (k - 1) as nat))
    }
}

pub open spec fn all_zero(s: Seq<int>) -> bool {
    forall|i: int| 0 <= i < s.len() ==> s[i] == 0
}

/// The index of the last row: the first from `k` on that is all zeros or has one
/// value.
pub open spec fn depth_from(s: Seq<int>, k: nat) -> nat
    decreases s.len() - k,
{
    if k + 1 >= s.len() || all_zero(row(s, k)) {
        k
    } else {
        depth_from(s, k + 1)
    }
}

pub open spec fn depth(s: Seq<int>) -> nat {
    depth_from(s, 0)
}

pub open spec fn ints(v: Seq<i64>) -> Seq<int> {
    v.map_values(|x: i64| x as int)
}

pub open spec fn fits_i64(s: Seq<int>) -> bool {
    forall|i: int| 0 <= i < s.len() ==> i64::MIN <= #[trigger] s[i] <= i64::MAX
}

/// Every row down to the last is within `i64`.
pub open spec fn rows_fit(s: Seq<int>) -> bool {
    forall|k: nat| k <= depth(s) ==> fits_i64(#[trigger] row(s, k))
}

/// The pyramid's rows are those over `s`.
pub open spec fn holds_rows(p: Pyramid, s: Seq<int>) -> bool {
    &&& p.data@.len() == depth(s) + 1
    &&& forall|k: int| 0 <= k < p.data@.len() ==> ints(#[trigger] p.data@[k]@) == row(s, k as nat)
}

proof fn lemma_row_len(s: Seq<int>, k: nat)
    requires
        k <= s.len(),
    ensures
        row(s, k).len() == s.len() - k,
    decreases k,
{
    if k > 0 {
        lemma_row_len(s, (k - 1) as nat);
    }
}

proof fn lemma_depth(s: Seq<int>, k: nat)
    ensures
        k <= depth_from(s, k),
        k < s.len() ==> depth_from(s, k) < s.len(),
    decreases s.len() - k,
{
    if !(k + 1 >= s.len() || all_zero(row(s, k))) {
        lemma_depth(s, k + 1);
    }
}

fn diff_row(v: &Vec<i64>) -> (r: Option<Vec<i64>>)
    requires
        v@.len() >= 1,
    ensures
        r matches Some(d) ==> ints(d@) == diffs(ints(v@)),
        r is None <==> !fits_i64(diffs(ints(v@))),
{
    let mut out: Vec<i64> = Vec::new();
    let mut i: usize = 0;
    while i < v.len() - 1
        invariant
            v@.len() >= 1,
            i + 1 <= v@.len(),
            out@.len() == i,
            forall|j: int| 0 <= j < i ==> out@[j] == v@[j + 1] - v@[j],
        decreases v@.len() - i,
    {
        match v[i + 1].checked_sub(v[i]) {
            Some(d) => out.push(d),
            None => {
                assert(diffs(ints(v@))[i as int] == v@[i + 1] - v@[i as int]);
                return None;
            },
        }
        i += 1;
    }
    assert(ints(out@) =~= diffs(ints(v@)));
    Some(out)
}

fn is_all_zero(v: &Vec<i64>) -> (r: bool)
    ensures
        r == all_zero(ints(v@)),
{
    let mut i: usize = 0;
    while i < v.len()
        invariant
            i <= v@.len(),
            forall|j: int| 0 <= j < i ==> v@[j] == 0,
        decreases v@.len() - i,
    {
        if v[i] != 0 {
            assert(ints(v@)[i as int] != 0);
            return false;
        }
        i += 1;
    }
    true
}

fn copy_row(v: &Vec<i64>) -> (r: Vec<i64>)
    ensures
        r@ == v@,
{
    let mut r: Vec<i64> = Vec::new();
    let mut i: usize = 0;
    while i < v.len()
        invariant
            i <= v@.len(),
            r@ == v@.subrange(0, i as int),
        decreases v@.len() - i,
    {
        r.push(v[i]);
        i += 1;
    }
    assert(r@ =~= v@);
    r
}

impl Pyramid {
    /// The history and its rows of differences; `None` where a difference leaves
    /// `i64`.
    pub fn new(seq: Vec<i64>) -> (r: Option<Pyramid>)
        requires
            seq@.len() >= 1,
        ensures
            r matches Some(p) ==> holds_rows(p, ints(seq@)),
            r is None <==> !rows_fit(ints(seq@)),
    {
        let ghost s = ints(seq@);
        let mut next_len: usize = seq.len() - 1;
        let mut data: Vec<Vec<i64>> = Vec::new();
        let mut last = seq;
        let ghost mut k: nat = 0;
        proof {
            lemma_depth(s, 0);
        }
        loop
            invariant
                s == ints(seq@),
                s.len() >= 1,
                k + next_len + 1 == s.len(),
                k <= depth(s),
                depth(s) == depth_from(s, k),
                ints(last@) == row(s, k),
                last@.len() == s.len() - k,
                data@.len() == k,
                forall|q: int| 0 <= q < k ==> ints(#[trigger] data@[q]@) == row(s, q as nat),
                forall|q: nat| q <= k ==> fits_i64(#[trigger] row(s, q)),
            decreases next_len,
        {
            proof {
                lemma_depth(s, k);
            }
            if next_len == 0 || is_all_zero(&last) {
                let ghost before = data@;
                data.push(last);
                proof {
                    assert(depth(s) == k);
                    assert forall|q: int| 0 <= q < data@.len() implies ints(#[trigger] data@[q]@) == row(
                        s,
                        q as nat,
                    ) by {
                        if q < k {
                            assert(data@[q] == before[q]);
                        }
                    }
                }
                return Some(Pyramid { data });
            }
            let next = match diff_row(&last) {
                Some(d) => d,
                None => {
                    proof {
                        assert(depth_from(s, k) == depth_from(s, k + 1));
                        lemma_depth(s, k + 1);
                        assert(!fits_i64(row(s, k + 1)));
                    }
                    return None;
                },
            };
            let ghost before = data@;
            data.push(last);
            proof {
                assert forall|q: int| 0 <= q < k + 1 implies ints(#[trigger] data@[q]@) == row(s, q as nat) by {
                    if q < k {
                        assert(data@[q] == before[q]);
                    }
                }
                assert(row(s, k + 1) == diffs(row(s, k)));
                lemma_depth(s, k + 1);
                assert forall|q: nat| q <= k + 1 implies fits_i64(#[trigger] row(s, q)) by {
                    if q == k + 1 {
                        assert forall|i: int| 0 <= i < row(s, q).len() implies i64::MIN <= #[trigger] row(
                            s,
                            q,
                        )[i] <= i64::MAX by {
                            assert(ints(next@)[i] == next@[i]);
                        }
                    }
                }
                k = k + 1;
            }
            last = next;
            next_len = next_len - 1;
        }
    }

    pub fn first_row(&self) -> (r: &[i64])
        requires
            self.data@.len() >= 1,
        ensures
            r@ == self.data@[0]@,
    {
        self.data[0].as_slice()
    }

    /// The last value of the first row.
    pub fn extrapolated_value(&self) -> (r: i64)
        requires
            self.data@.len() >= 1,
            self.data@[0]@.len() >= 1,
        ensures
            r == self.data@[0]@.last(),
    {
        let row = &self.data[0];
        row[row.len() - 1]
    }

    /// The first value of the first row.
    pub fn extrapolated_value_front(&self) -> (r: i64)
        requires
            self.data@.len() >= 1,
            self.data@[0]@.len() >= 1,
        ensures
            r == self.data@[0]@[0],
    {
        self.data[0][0]
    }
}

pub open spec fn rows_of(data: Seq<Vec<i64>>) -> Seq<Seq<int>> {
    data.map_values(|r: Vec<i64>| ints(r@))
}

/// The value appended after row `k`: zero on the last row, else the row's last
/// value plus the value appended to the row below.
pub open spec fn next_back(rows: Seq<Seq<int>>, k: int) -> int
    decreases rows.len() - k,
{
    if k < 0 || k >= rows.len() - 1 {
        0
    } else {
        rows[k].last() + next_back(rows, k + 1)
    }
}

/// The value put before row `k`: zero on the last row, else the row's first value
/// minus the value put before the row below.
pub open spec fn next_front(rows: Seq<Seq<int>>, k: int) -> int
    decreases rows.len() - k,
{
    if k < 0 || k >= rows.len() - 1 {
        0
    } else {
        rows[k][0] - next_front(rows, k + 1)
    }
}

/// The value added to row `k` at its end, or at its front where `front` is set.
pub open spec fn next_end(rows: Seq<Seq<int>>, k: int, front: bool) -> int {
    if front {
        next_front(rows, k)
    } else {
        next_back(rows, k)
    }
}

pub open spec fn rows_nonempty(data: Seq<Vec<i64>>) -> bool {
    data.len() >= 1 && forall|k: int| 0 <= k < data.len() ==> (#[trigger] data[k])@.len() >= 1
}

/// Computes the value for each row from the bottom up, `front` choosing which end.
fn new_ends(data: &Vec<Vec<i64>>, front: bool) -> (r: Option<Vec<i64>>)
    requires
        rows_nonempty(data@),
    ensures
        r matches Some(v) ==> v@.len() == data@.len() && forall|k: int|
            0 <= k < v@.len() ==> v@[k] == next_end(rows_of(data@), k, front),
        r is None <==> exists|k: int|
            0 <= k < data@.len() && !(i64::MIN <= #[trigger] next_end(rows_of(data@), k, front)
                <= i64::MAX),
{
    let ghost rows = rows_of(data@);
    let n = data.len();
    let mut out: Vec<i64> = Vec::new();
    let mut k: usize = 0;
    while k < n
        invariant
            n == data@.len(),
            k <= n,
            out@.len() == k,
            forall|q: int| 0 <= q < k ==> out@[q] == 0,
        decreases n - k,
    {
        out.push(0);
        k += 1;
    }
    let mut k: usize = n - 1;
    loop
        invariant
            rows == rows_of(data@),
            rows_nonempty(data@),
            n == data@.len(),
            k < n,
            out@.len() == n,
            forall|q: int| k <= q < n ==> out@[q] == next_end(rows, q, front),
            forall|q: int| k <= q < n ==> i64::MIN <= #[trigger] next_end(rows, q, front) <= i64::MAX,
        decreases k,
    {
        if k == 0 {
            return Some(out);
        }
        let j = k - 1;
        let row = &data[j];
        assert(row@.len() >= 1);
        assert(rows[j as int] == ints(row@));
        let below = out[k];
        let v = if front {
            row[0].checked_sub(below)
        } else {
            row[row.len() - 1].checked_add(below)
        };
        match v {
            Some(x) => {
                out.set(j, x);
            },
            None => {
                assert(!(i64::MIN <= next_end(rows, j as int, front) <= i64::MAX));
                return None;
            },
        }
        k = j;
    }
}

impl Pyramid {
    fn append_ends(&mut self, ends: &Vec<i64>, front: bool)
        requires
            ends@.len() == old(self).data@.len(),
        ensures
            final(self).data@.len() == old(self).data@.len(),
            forall|k: int|
                0 <= k < old(self).data@.len() ==> (#[trigger] final(self).data@[k])@ == (if front {
                    seq![ends@[k]] + old(self).data@[k]@
                } else {
                    old(self).data@[k]@.push(ends@[k])
                }),
    {
        let mut k: usize = 0;
        while k < self.data.len()
            invariant
                ends@.len() == old(self).data@.len(),
                self.data@.len() == old(self).data@.len(),
                k <= self.data@.len(),
                forall|q: int| k <= q < self.data@.len() ==> self.data@[q] == old(self).data@[q],
                forall|q: int|
                    0 <= q < k ==> (#[trigger] self.data@[q])@ == (if front {
                        seq![ends@[q]] + old(self).data@[q]@
                    } else {
                        old(self).data@[q]@.push(ends@[q])
                    }),
            decreases self.data@.len() - k,
        {
            let mut row = copy_row(&self.data[k]);
            if front {
                row.insert(0, ends[k]);
                proof {
                    assert(row@ =~= seq![ends@[k as int]] + old(self).data@[k as int]@);
                }
            } else {
                row.push(ends[k]);
            }
            self.data.set(k, row);
            k += 1;
        }
    }

    /// Appends the next value of each row, from the bottom up; leaves the pyramid as
    /// it was and returns `None` where a value leaves `i64`.
    pub fn extrapolate(&mut self) -> (r: Option<()>)
        requires
            rows_nonempty(old(self).data@),
        ensures
            r is Some ==> final(self).data@.len() == old(self).data@.len() && forall|k: int|
                0 <= k < old(self).data@.len() ==> (#[trigger] final(self).data@[k])@ == old(
                    self,
                ).data@[k]@.push(next_back(rows_of(old(self).data@), k) as i64),
            r is Some ==> forall|k: int|
                0 <= k < old(self).data@.len() ==> i64::MIN <= #[trigger] next_back(
                    rows_of(old(self).data@),
                    k,
                ) <= i64::MAX,
            r is None ==> final(self).data@ == old(self).data@ && exists|k: int|
                0 <= k < old(self).data@.len() && !(i64::MIN <= #[trigger] next_back(
                    rows_of(old(self).data@),
                    k,
                ) <= i64::MAX),
    {
        let ends = new_ends(&self.data, false)?;
        assert forall|k: int| 0 <= k < ends@.len() implies ends@[k] == next_back(rows_of(self.data@), k) by {
            assert(ends@[k] == next_end(rows_of(self.data@), k, false));
        }
        assert forall|k: int| 0 <= k < self.data@.len() implies i64::MIN <= #[trigger] next_back(
            rows_of(self.data@),
            k,
        ) <= i64::MAX by {
            assert(ends@[k] == next_end(rows_of(self.data@), k, false));
        }
        self.append_ends(&ends, false);
        Some(())
    }

    /// Puts the previous value before each row, from the bottom up; leaves the
    /// pyramid as it was and returns `None` where a value leaves `i64`.
    pub fn extrapolate_front(&mut self) -> (r: Option<()>)
        requires
            rows_nonempty(old(self).data@),
        ensures
            r is Some ==> final(self).data@.len() == old(self).data@.len() && forall|k: int|
                0 <= k < old(self).data@.len() ==> (#[trigger] final(self).data@[k])@ == seq![
                    next_front(rows_of(old(self).data@), k) as i64,
                ] + old(self).data@[k]@,
            r is Some ==> forall|k: int|
                0 <= k < old(self).data@.len() ==> i64::MIN <= #[trigger] next_front(
                    rows_of(old(self).data@),
                    k,
                ) <= i64::MAX,
            r is None ==> final(self).data@ == old(self).data@ && exists|k: int|
                0 <= k < old(self).data@.len() && !(i64::MIN <= #[trigger] next_front(
                    rows_of(old(self).data@),
                    k,
                ) <= i64::MAX),
    {
        let ends = new_ends(&self.data, true)?;
        assert forall|k: int| 0 <= k < ends@.len() implies ends@[k] == next_front(rows_of(self.data@), k) by {
            assert(ends@[k] == next_end(rows_of(self.data@), k, true));
        }
        assert forall|k: int| 0 <= k < self.data@.len() implies i64::MIN <= #[trigger] next_front(
            rows_of(self.data@),
            k,
        ) <= i64::MAX by {
            assert(ends@[k] == next_end(rows_of(self.data@), k, true));
        }
        self.append_ends(&ends, true);
        Some(())
    }
}

/// The rows over `s` down to the last one.
pub open spec fn rows_over(s: Seq<int>) -> Seq<Seq<int>> {
    Seq::new(depth(s) + 1, |k: int| row(s, k as nat))
}

/// The value that comes after `s`, or before it where `front` is set.
pub open spec fn prediction(s: Seq<int>, front: bool) -> int {
    next_end(rows_over(s), 0, front)
}

/// Building the pyramid over `s` and extending it stays within `i64`.
pub open spec fn prediction_fits(s: Seq<int>, front: bool) -> bool {
    rows_fit(s) && forall|k: int|
        0 <= k <= depth(s) ==> i64::MIN <= #[trigger] next_end(rows_over(s), k, front) <= i64::MAX
}

pub open spec fn prediction_total(hs: Seq<Vec<i64>>, n: int, front: bool) -> int
    decreases n,
{
    if n <= 0 {
        0
    } else {
        prediction_total(hs, n - 1, front) + prediction(ints(hs[n - 1]@), front)
    }
}

proof fn lemma_rows_of_pyramid(p: Pyramid, s: Seq<int>)
    requires
        holds_rows(p, s),
    ensures
        rows_of(p.data@) == rows_over(s),
{
    assert(rows_of(p.data@) =~= rows_over(s));
}

/// The sum of the next values of all histories, or of their previous values where
/// `front` is set; `None` where a step or the sum leaves `i64`.
pub fn sum_of_predictions(histories: &Vec<Vec<i64>>, front: bool) -> (r: Option<i64>)
    requires
        forall|i: int| 0 <= i < histories@.len() ==> (#[trigger] histories@[i])@.len() >= 1,
    ensures
        r matches Some(x) ==> x == prediction_total(histories@, histories@.len() as int, front),
        (forall|i: int|
            0 <= i < histories@.len() ==> prediction_fits(ints((#[trigger] histories@[i])@), front))
            && i64::MIN <= prediction_total(histories@, histories@.len() as int, front)
            <= i64::MAX ==> r is Some,
{
    let mut acc: i128 = 0;
    let mut i: usize = 0;
    while i < histories.len()
        invariant
            forall|q: int| 0 <= q < histories@.len() ==> (#[trigger] histories@[q])@.len() >= 1,
            i <= histories@.len(),
            acc == prediction_total(histories@, i as int, front),
            i * (i64::MIN as int) <= acc <= i * (i64::MAX as int),
        decreases histories@.len() - i,
    {
        let h = &histories[i];
        let ghost s = ints(h@);
        let copy = copy_row(h);
        let mut p = match Pyramid::new(copy) {
            Some(p) => p,
            None => {
                assert(!prediction_fits(ints(histories@[i as int]@), front));
                return None;
            },
        };
        proof {
            lemma_rows_of_pyramid(p, s);
            lemma_depth(s, 0);
            assert forall|k: int| 0 <= k < p.data@.len() implies (#[trigger] p.data@[k])@.len() >= 1 by {
                lemma_row_len(s, k as nat);
                assert(ints(p.data@[k]@) == row(s, k as nat));
            }
        }
        let ghost rows = rows_of(p.data@);
        let v = if front {
            match p.extrapolate_front() {
                Some(()) => p.extrapolated_value_front(),
                None => {
                    proof {
                        let k = choose|k: int|
                            0 <= k < rows.len() && !(i64::MIN <= #[trigger] next_front(rows, k)
                                <= i64::MAX);
                        assert(next_end(rows_over(s), k, front) == next_front(rows, k));
                    }
                    return None;
                },
            }
        } else {
            match p.extrapolate() {
                Some(()) => p.extrapolated_value(),
                None => {
                    proof {
                        let k = choose|k: int|
                            0 <= k < rows.len() && !(i64::MIN <= #[trigger] next_back(rows, k)
                                <= i64::MAX);
                        assert(next_end(rows_over(s), k, front) == next_back(rows, k));
                    }
                    return None;
                },
            }
        };
        assert(v == prediction(s, front));
        acc = acc + v as i128;
        i += 1;
    }
    if acc < i64::MIN as i128 || acc > i64::MAX as i128 {
        None
    } else {
        Some(acc as i64)
    }
}

} // verus!
