use vstd::prelude::*;

verus! {

/// Errors of the range remapper.
#[derive(Debug, Clone, Copy, PartialEq, Eq, Structural)]
pub enum RemapError {
    /// An interval whose start is not below its end.
    MalformedInterval,
    /// A shift or a bound left the range of `i64`.
    Overflow,
    /// The working set was empty where its minimum was asked for.
    NoIntervals,
}

/// A half-open range `[start, end)` of `i64` values, never empty.
#[derive(Debug, Clone, Copy, PartialEq, Eq, Structural)]
pub struct Interval {
    start: i64,
    end: i64,
}

impl Interval {
    /// The first value of the interval.
    pub closed spec fn lo(self) -> int {
        self.start as int
    }

    /// One past the last value of the interval.
    pub closed spec fn hi(self) -> int {
        self.end as int
    }

    /// Every interval handed out by this type is non-empty.
    pub closed spec fn wf(self) -> bool {
        self.start < self.end
    }

    pub open spec fn has(self, v: int) -> bool {
        self.lo() <= v < self.hi()
    }

    /// `self` lies wholly inside `other`.
    pub open spec fn inside(self, other: Interval) -> bool {
        self.lo() >= other.lo() && self.hi() <= other.hi()
    }

    /// `self` crosses the left edge of `other` and ends inside it.
    pub open spec fn left_of(self, other: Interval) -> bool {
        self.lo() < other.lo() && self.hi() > other.lo() && self.hi() <= other.hi()
    }

    /// `self` starts inside `other` and crosses its right edge.
    pub open spec fn right_of(self, other: Interval) -> bool {
        self.lo() >= other.lo() && self.lo() < other.hi() && self.hi() > other.hi()
    }

    /// `self` crosses both edges of `other`.
    pub open spec fn both_sides_of(self, other: Interval) -> bool {
        self.lo() < other.lo() && self.hi() > other.hi()
    }

    /// The two intervals share no value.
    pub open spec fn apart(self, other: Interval) -> bool {
        self.hi() <= other.lo() || other.hi() <= self.lo()
    }

    /// `other` is `self` moved by `d`.
    pub open spec fn moved(self, other: Interval, d: int) -> bool {
        other.lo() == self.lo() + d && other.hi() == self.hi() + d
    }

    pub proof fn lemma_wf(self)
        requires
            self.wf(),
        ensures
            self.lo() < self.hi(),
    {
    }

    /// Two intervals with the same bounds are the same value.
    pub proof fn lemma_same_bounds(self, other: Interval)
        requires
            self.lo() == other.lo(),
            self.hi() == other.hi(),
        ensures
            self == other,
    {
    }

    /// Builds `[range.start, range.end)`; an empty or inverted range is refused.
    pub fn new(range: core::ops::Range<i64>) -> (r: Result<Interval, RemapError>)
        ensures
            range.start < range.end ==> (r matches Ok(i) && i.wf() && i.lo() == range.start
                && i.hi() == range.end),
            range.start >= range.end ==> r == Err::<Interval, RemapError>(
                RemapError::MalformedInterval,
            ),
    {
        if range.start < range.end {
            Ok(Interval { start: range.start, end: range.end })
        } else {
            Err(RemapError::MalformedInterval)
        }
    }

    pub fn start(&self) -> (r: i64)
        ensures
            r == self.lo(),
    {
        self.start
    }

    pub fn end(&self) -> (r: i64)
        ensures
            r == self.hi(),
    {
        self.end
    }

    pub fn contains(&self, val: i64) -> (r: bool)
        ensures
            r == self.has(val as int),
    {
        self.start <= val && val < self.end
    }

    pub fn is_contained(&self, other: &Interval) -> (r: bool)
        ensures
            r == self.inside(*other),
    {
        self.start >= other.start && self.end <= other.end
    }

    pub fn overlaps_left_of(&self, other: &Interval) -> (r: bool)
        ensures
            r == self.left_of(*other),
    {
        self.start < other.start && self.end <= other.end && self.end > other.start
    }

    pub fn overlaps_right_of(&self, other: &Interval) -> (r: bool)
        ensures
            r == self.right_of(*other),
    {
        self.start >= other.start && self.end > other.end && self.start < other.end
    }

    pub fn overlaps_both_sides_of(&self, other: &Interval) -> (r: bool)
        ensures
            r == self.both_sides_of(*other),
    {
        self.start < other.start && self.end > other.end
    }

    /// The interval moved by `offset`; refused where a bound would leave `i64`.
    pub fn offset_by(&self, offset: &i64) -> (r: Result<Interval, RemapError>)
        requires
            self.wf(),
        ensures
            r matches Ok(s) ==> s.wf() && self.moved(s, *offset as int),
            r is Err <==> !(i64::MIN <= self.lo() + *offset && self.hi() + *offset <= i64::MAX),
            r is Err ==> r == Err::<Interval, RemapError>(RemapError::Overflow),
    {
        match (self.start.checked_add(*offset), self.end.checked_add(*offset)) {
            (Some(start), Some(end)) => Ok(Interval { start, end }),
            _ => Err(RemapError::Overflow),
        }
    }
}

/// Some interval of `s` holds `v`.
pub open spec fn covers(s: Seq<Interval>, v: int) -> bool {
    exists|i: int| 0 <= i < s.len() && #[trigger] s[i].has(v)
}

pub open spec fn all_wf(s: Seq<Interval>) -> bool {
    forall|i: int| 0 <= i < s.len() ==> #[trigger] s[i].wf()
}

pub open spec fn rules_wf(rs: Seq<(Interval, i64)>) -> bool {
    forall|k: int| 0 <= k < rs.len() ==> #[trigger] rs[k].0.wf()
}

/// No two intervals of `s` share a value.
pub open spec fn pairwise_apart(s: Seq<Interval>) -> bool {
    forall|i: int, j: int|
        0 <= i < s.len() && 0 <= j < s.len() && i != j ==> #[trigger] s[i].apart(#[trigger] s[j])
}

/// `p` lies inside or apart from each of the first `n` rule intervals.
pub open spec fn aligned_upto(p: Interval, rs: Seq<(Interval, i64)>, n: int) -> bool {
    forall|k: int| 0 <= k < n ==> #[trigger] p.inside(rs[k].0) || p.apart(rs[k].0)
}

/// `x` is an edge of one of the first `n` rule intervals.
pub open spec fn edge_upto(rs: Seq<(Interval, i64)>, n: int, x: int) -> bool {
    exists|k: int| 0 <= k < n && (#[trigger] rs[k].0.lo() == x || rs[k].0.hi() == x)
}

/// `pieces` is `t` cut at every edge of a rule interval that falls inside `t`, and
/// nowhere else: the pieces lie in `t`, hold every value of `t` once, each lies
/// inside or apart from every rule interval, and each begins and ends at an edge
/// of `t` or of a rule interval.
pub open spec fn is_split_of(pieces: Seq<Interval>, t: Interval, rs: Seq<(Interval, i64)>) -> bool {
    &&& all_wf(pieces)
    &&& forall|i: int| 0 <= i < pieces.len() ==> #[trigger] pieces[i].inside(t)
    &&& forall|v: int| t.has(v) ==> covers(pieces, v)
    &&& pairwise_apart(pieces)
    &&& forall|i: int| 0 <= i < pieces.len() ==> aligned_upto(#[trigger] pieces[i], rs, rs.len() as int)
    &&& forall|i: int|
        0 <= i < pieces.len() ==> (#[trigger] pieces[i].lo() == t.lo() || edge_upto(
            rs,
            rs.len() as int,
            pieces[i].lo(),
        ))
    &&& forall|i: int|
        0 <= i < pieces.len() ==> (#[trigger] pieces[i].hi() == t.hi() || edge_upto(
            rs,
            rs.len() as int,
            pieces[i].hi(),
        ))
}

/// The offset of the first rule from index `k` on whose interval holds all of `p`;
/// zero where there is none.
pub open spec fn offset_from(rs: Seq<(Interval, i64)>, k: int, p: Interval) -> int
    decreases rs.len() - k,
{
    if 0 <= k < rs.len() {
        if p.inside(rs[k].0) {
            rs[k].1 as int
        } else {
            offset_from(rs, k + 1, p)
        }
    } else {
        0
    }
}

/// The offset that a stage with rules `rs` gives to the piece `p`.
pub open spec fn offset_of(rs: Seq<(Interval, i64)>, p: Interval) -> int {
    offset_from(rs, 0, p)
}

/// `p` moved by `d` stays within `i64`.
pub open spec fn fits(p: Interval, d: int) -> bool {
    i64::MIN <= p.lo() + d && p.hi() + d <= i64::MAX
}

/// `out` is `pieces` with each piece moved by the offset of its rule.
pub open spec fn shifted_all(pieces: Seq<Interval>, rs: Seq<(Interval, i64)>, out: Seq<Interval>) -> bool {
    &&& out.len() == pieces.len()
    &&& all_wf(out)
    &&& forall|i: int|
        0 <= i < pieces.len() ==> #[trigger] pieces[i].moved(out[i], offset_of(rs, pieces[i]))
}

/// Every piece can be moved by the offset of its rule.
pub open spec fn all_fit(pieces: Seq<Interval>, rs: Seq<(Interval, i64)>) -> bool {
    forall|i: int| 0 <= i < pieces.len() ==> fits(#[trigger] pieces[i], offset_of(rs, pieces[i]))
}

/// A piece that no rule interval from index `k` on holds gets no offset from them.
pub proof fn lemma_offset_none(rs: Seq<(Interval, i64)>, k: int, p: Interval)
    requires
        0 <= k,
        forall|q: int| k <= q < rs.len() ==> !p.inside(#[trigger] rs[q].0),
    ensures
        offset_from(rs, k, p) == 0,
    decreases rs.len() - k,
{
    if k < rs.len() {
        lemma_offset_none(rs, k + 1, p);
    }
}

/// The offset of the first rule whose interval holds all of `p`, zero where none does.
fn offset_for(p: &Interval, rules: &[(Interval, i64)]) -> (o: i64)
    ensures
        o == offset_of(rules@, *p),
{
    let mut k: usize = 0;
    while k < rules.len()
        invariant
            k <= rules@.len(),
            offset_of(rules@, *p) == offset_from(rules@, k as int, *p),
        decreases rules.len() - k,
    {
        if p.is_contained(&rules[k].0) {
            return rules[k].1;
        }
        k += 1;
    }
    0
}

impl Interval {
    /// `self` cut at the edges of `r` that fall strictly inside it.
    fn cut(&self, r: &Interval) -> (parts: Vec<Interval>)
        requires
            self.wf(),
            r.wf(),
        ensures
            1 <= parts@.len() <= 3,
            all_wf(parts@),
            forall|i: int| 0 <= i < parts@.len() ==> #[trigger] parts@[i].inside(*self),
            forall|v: int| self.has(v) ==> covers(parts@, v),
            pairwise_apart(parts@),
            forall|i: int|
                0 <= i < parts@.len() ==> #[trigger] parts@[i].inside(*r) || parts@[i].apart(*r),
            forall|i: int|
                0 <= i < parts@.len() ==> (#[trigger] parts@[i].lo() == self.lo() || parts@[i].lo()
                    == r.lo() || parts@[i].lo() == r.hi()),
            forall|i: int|
                0 <= i < parts@.len() ==> (#[trigger] parts@[i].hi() == self.hi() || parts@[i].hi()
                    == r.lo() || parts@[i].hi() == r.hi()),
            self.inside(*r) || self.apart(*r) ==> parts@ == seq![*self],
    {
        if self.overlaps_both_sides_of(r) {
            let parts = vec![
                Interval { start: self.start, end: r.start },
                *r,
                Interval { start: r.end, end: self.end },
            ];
            assert forall|v: int| self.has(v) implies covers(parts@, v) by {
                if v < r.lo() {
                    assert(parts@[0].has(v));
                } else if v < r.hi() {
                    assert(parts@[1].has(v));
                } else {
                    assert(parts@[2].has(v));
                }
            }
            parts
        } else if self.overlaps_left_of(r) {
            let parts = vec![
                Interval { start: self.start, end: r.start },
                Interval { start: r.start, end: self.end },
            ];
            assert forall|v: int| self.has(v) implies covers(parts@, v) by {
                if v < r.lo() {
                    assert(parts@[0].has(v));
                } else {
                    assert(parts@[1].has(v));
                }
            }
            parts
        } else if self.overlaps_right_of(r) {
            let parts = vec![
                Interval { start: self.start, end: r.end },
                Interval { start: r.end, end: self.end },
            ];
            assert forall|v: int| self.has(v) implies covers(parts@, v) by {
                if v < r.hi() {
                    assert(parts@[0].has(v));
                } else {
                    assert(parts@[1].has(v));
                }
            }
            parts
        } else {
            let parts = vec![*self];
            assert forall|v: int| self.has(v) implies covers(parts@, v) by {
                assert(parts@[0].has(v));
            }
            parts
        }
    }
}

impl Interval {
    /// `self` cut at every edge of a rule interval that falls inside it, with no
    /// value moved.
    pub fn split_pieces(&self, rules: &[(Interval, i64)]) -> (pieces: Vec<Interval>)
        requires
            self.wf(),
            rules_wf(rules@),
        ensures
            is_split_of(pieces@, *self, rules@),
            (forall|k: int|
                0 <= k < rules@.len() ==> #[trigger] self.inside(rules@[k].0) || self.apart(
                    rules@[k].0,
                )) ==> pieces@ == seq![*self],
    {
        let ghost rs = rules@;
        let ghost t = *self;
        let ghost untouched = forall|k: int|
            0 <= k < rs.len() ==> #[trigger] t.inside(rs[k].0) || t.apart(rs[k].0);
        let mut pool: Vec<Interval> = vec![*self];
        assert forall|v: int| t.has(v) implies covers(pool@, v) by {
            assert(pool@[0].has(v));
        }
        let mut k: usize = 0;
        while k < rules.len()
            invariant
                t == *self,
                rs == rules@,
                t.wf(),
                rules_wf(rs),
                k <= rs.len(),
                untouched == (forall|q: int|
                    0 <= q < rs.len() ==> #[trigger] t.inside(rs[q].0) || t.apart(rs[q].0)),
                all_wf(pool@),
                forall|i: int| 0 <= i < pool@.len() ==> #[trigger] pool@[i].inside(t),
                forall|v: int| t.has(v) ==> covers(pool@, v),
                pairwise_apart(pool@),
                forall|i: int| 0 <= i < pool@.len() ==> aligned_upto(#[trigger] pool@[i], rs, k as int),
                forall|i: int|
                    0 <= i < pool@.len() ==> (#[trigger] pool@[i].lo() == t.lo() || edge_upto(
                        rs,
                        k as int,
                        pool@[i].lo(),
                    )),
                forall|i: int|
                    0 <= i < pool@.len() ==> (#[trigger] pool@[i].hi() == t.hi() || edge_upto(
                        rs,
                        k as int,
                        pool@[i].hi(),
                    )),
                untouched ==> pool@ == seq![t],
            decreases rs.len() - k,
        {
            let rule = rules[k].0;
            let mut next: Vec<Interval> = Vec::new();
            let ghost mut origin: Seq<int> = Seq::empty();
            let mut j: usize = 0;
            while j < pool.len()
                invariant
                    t.wf(),
                    rs == rules@,
                    k < rs.len(),
                    rule == rs[k as int].0,
                    rule.wf(),
                    j <= pool@.len(),
                    untouched == (forall|q: int|
                        0 <= q < rs.len() ==> #[trigger] t.inside(rs[q].0) || t.apart(rs[q].0)),
                    all_wf(pool@),
                    forall|i: int| 0 <= i < pool@.len() ==> #[trigger] pool@[i].inside(t),
                    pairwise_apart(pool@),
                    forall|i: int|
                        0 <= i < pool@.len() ==> aligned_upto(#[trigger] pool@[i], rs, k as int),
                    forall|i: int|
                        0 <= i < pool@.len() ==> (#[trigger] pool@[i].lo() == t.lo() || edge_upto(
                            rs,
                            k as int,
                            pool@[i].lo(),
                        )),
                    forall|i: int|
                        0 <= i < pool@.len() ==> (#[trigger] pool@[i].hi() == t.hi() || edge_upto(
                            rs,
                            k as int,
                            pool@[i].hi(),
                        )),
                    untouched ==> pool@ == seq![t],
                    origin.len() == next@.len(),
                    forall|a: int|
                        0 <= a < next@.len() ==> 0 <= #[trigger] origin[a] < j && next@[a].inside(
                            pool@[origin[a]],
                        ),
                    all_wf(next@),
                    pairwise_apart(next@),
                    forall|m: int, v: int|
                        0 <= m < j && #[trigger] pool@[m].has(v) ==> covers(next@, v),
                    forall|a: int|
                        0 <= a < next@.len() ==> aligned_upto(#[trigger] next@[a], rs, k + 1),
                    forall|a: int|
                        0 <= a < next@.len() ==> (#[trigger] next@[a].lo() == t.lo() || edge_upto(
                            rs,
                            k + 1,
                            next@[a].lo(),
                        )),
                    forall|a: int|
                        0 <= a < next@.len() ==> (#[trigger] next@[a].hi() == t.hi() || edge_upto(
                            rs,
                            k + 1,
                            next@[a].hi(),
                        )),
                    untouched ==> next@ == pool@.subrange(0, j as int),
                decreases pool@.len() - j,
            {
                let p = pool[j];
                let mut parts = p.cut(&rule);
                let ghost ps = parts@;
                let ghost old_next = next@;
                let ghost n = old_next.len();
                next.append(&mut parts);
                proof {
                    let new_origin = origin + Seq::new(ps.len(), |_i: int| j as int);
                    assert(next@ == old_next + ps);
                    assert forall|a: int| 0 <= a < next@.len() implies 0 <= #[trigger] new_origin[a]
                        < j + 1 && next@[a].inside(pool@[new_origin[a]]) by {
                        if a >= n {
                            assert(next@[a] == ps[a - n]);
                        }
                    }
                    assert forall|a: int, b: int|
                        0 <= a < next@.len() && 0 <= b < next@.len() && a != b implies #[trigger] next@[a].apart(
                        #[trigger] next@[b],
                    ) by {
                        if a < n && b >= n {
                            assert(pool@[origin[a]].apart(pool@[j as int]));
                            assert(old_next[a].inside(pool@[origin[a]]));
                            assert(next@[a] == old_next[a]);
                            assert(next@[b] == ps[b - n]);
                            assert(ps[b - n].inside(p));
                        } else if a >= n && b < n {
                            assert(pool@[origin[b]].apart(pool@[j as int]));
                            assert(old_next[b].inside(pool@[origin[b]]));
                            assert(next@[b] == old_next[b]);
                            assert(next@[a] == ps[a - n]);
                            assert(ps[a - n].inside(p));
                        } else if a >= n && b >= n {
                            assert(next@[a] == ps[a - n]);
                            assert(next@[b] == ps[b - n]);
                        } else {
                            assert(next@[a] == old_next[a]);
                            assert(next@[b] == old_next[b]);
                        }
                    }
                    assert forall|m: int, v: int|
                        0 <= m < j + 1 && #[trigger] pool@[m].has(v) implies covers(next@, v) by {
                        if m < j {
                            let a = choose|a: int| 0 <= a < old_next.len() && #[trigger] old_next[a].has(v);
                            assert(next@[a] == old_next[a]);
                        } else {
                            let c = choose|c: int| 0 <= c < ps.len() && #[trigger] ps[c].has(v);
                            assert(next@[n + c] == ps[c]);
                        }
                    }
                    assert forall|a: int| 0 <= a < next@.len() implies aligned_upto(
                        #[trigger] next@[a],
                        rs,
                        k + 1,
                    ) by {
                        if a >= n {
                            assert(next@[a] == ps[a - n]);
                            assert(ps[a - n].inside(p));
                            assert(aligned_upto(p, rs, k as int));
                            assert forall|q: int| 0 <= q < k + 1 implies #[trigger] next@[a].inside(
                                rs[q].0,
                            ) || next@[a].apart(rs[q].0) by {
                                if q < k {
                                    assert(p.inside(rs[q].0) || p.apart(rs[q].0));
                                }
                            }
                        } else {
                            assert(next@[a] == old_next[a]);
                        }
                    }
                    assert forall|a: int| 0 <= a < next@.len() implies (#[trigger] next@[a].lo()
                        == t.lo() || edge_upto(rs, k + 1, next@[a].lo())) by {
                        if a >= n {
                            assert(next@[a] == ps[a - n]);
                            let x = next@[a].lo();
                            if x == p.lo() {
                                if x != t.lo() {
                                    let q = choose|q: int|
                                        0 <= q < k && (#[trigger] rs[q].0.lo() == x || rs[q].0.hi()
                                            == x);
                                    assert(0 <= q < k + 1);
                                }
                            } else {
                                assert(rs[k as int].0.lo() == x || rs[k as int].0.hi() == x);
                            }
                        } else {
                            assert(next@[a] == old_next[a]);
                        }
                    }
                    assert forall|a: int| 0 <= a < next@.len() implies (#[trigger] next@[a].hi()
                        == t.hi() || edge_upto(rs, k + 1, next@[a].hi())) by {
                        if a >= n {
                            assert(next@[a] == ps[a - n]);
                            let x = next@[a].hi();
                            if x == p.hi() {
                                if x != t.hi() {
                                    let q = choose|q: int|
                                        0 <= q < k && (#[trigger] rs[q].0.lo() == x || rs[q].0.hi()
                                            == x);
                                    assert(0 <= q < k + 1);
                                }
                            } else {
                                assert(rs[k as int].0.lo() == x || rs[k as int].0.hi() == x);
                            }
                        } else {
                            assert(next@[a] == old_next[a]);
                        }
                    }
                    if untouched {
                        assert(p == t);
                        assert(t.inside(rs[k as int].0) || t.apart(rs[k as int].0));
                        assert(next@ =~= pool@.subrange(0, j + 1));
                    }
                    origin = new_origin;
                }
                j += 1;
            }
            proof {
                assert forall|v: int| t.has(v) implies covers(next@, v) by {
                    let m = choose|m: int| 0 <= m < pool@.len() && #[trigger] pool@[m].has(v);
                }
                assert forall|a: int| 0 <= a < next@.len() implies #[trigger] next@[a].inside(t) by {
                    assert(pool@[origin[a]].inside(t));
                }
                if untouched {
                    assert(next@ =~= seq![t]);
                }
            }
            pool = next;
            k += 1;
        }
        pool
    }
}

/// Moves each piece by the offset of the first rule whose interval holds all of it;
/// a piece that no rule holds stays where it is.
pub fn shift_pieces(pieces: &Vec<Interval>, rules: &[(Interval, i64)]) -> (r: Result<
    Vec<Interval>,
    RemapError,
>)
    requires
        all_wf(pieces@),
    ensures
        r matches Ok(out) ==> shifted_all(pieces@, rules@, out@),
        r is Ok <==> all_fit(pieces@, rules@),
        r is Err ==> r == Err::<Vec<Interval>, RemapError>(RemapError::Overflow),
        (forall|i: int| 0 <= i < pieces@.len() ==> offset_of(rules@, #[trigger] pieces@[i]) == 0)
            ==> (r matches Ok(out) && out@ == pieces@),
{
    let mut out: Vec<Interval> = Vec::new();
    let mut i: usize = 0;
    while i < pieces.len()
        invariant
            all_wf(pieces@),
            i <= pieces@.len(),
            out@.len() == i,
            all_wf(out@),
            forall|a: int|
                0 <= a < i ==> #[trigger] pieces@[a].moved(out@[a], offset_of(rules@, pieces@[a])),
            forall|a: int| 0 <= a < i ==> fits(#[trigger] pieces@[a], offset_of(rules@, pieces@[a])),
            forall|a: int|
                0 <= a < i && offset_of(rules@, #[trigger] pieces@[a]) == 0 ==> out@[a] == pieces@[a],
        decreases pieces@.len() - i,
    {
        let p = pieces[i];
        let offset = offset_for(&p, rules);
        assert(p.wf());
        match p.offset_by(&offset) {
            Ok(moved) => {
                proof {
                    if offset == 0 {
                        p.lemma_same_bounds(moved);
                    }
                }
                out.push(moved);
            },
            Err(e) => {
                assert(!fits(pieces@[i as int], offset_of(rules@, pieces@[i as int])));
                return Err(e);
            },
        }
        i += 1;
    }
    proof {
        if forall|a: int| 0 <= a < pieces@.len() ==> offset_of(rules@, #[trigger] pieces@[a]) == 0 {
            assert(out@ =~= pieces@);
        }
    }
    Ok(out)
}

/// There are pieces of `t` cut at the rule edges that, each moved by its rule's
/// offset, give `out`.
pub open spec fn split_result(t: Interval, rs: Seq<(Interval, i64)>, out: Seq<Interval>) -> bool {
    exists|pieces: Seq<Interval>| #[trigger] is_split_of(pieces, t, rs) && shifted_all(pieces, rs, out)
}

/// Some piece of `t`, cut at the rule edges, cannot be moved by its rule's offset.
pub open spec fn split_overflows(t: Interval, rs: Seq<(Interval, i64)>) -> bool {
    exists|pieces: Seq<Interval>| #[trigger] is_split_of(pieces, t, rs) && !all_fit(pieces, rs)
}

impl Interval {
    /// Cuts `self` at the edges of the rule intervals and moves each piece by the
    /// offset of the first rule whose interval holds it.
    pub fn split_on_ranges(&self, ranges_and_offset: &[(Interval, i64)]) -> (r: Result<
        Vec<Interval>,
        RemapError,
    >)
        requires
            self.wf(),
            rules_wf(ranges_and_offset@),
        ensures
            r matches Ok(out) ==> split_result(*self, ranges_and_offset@, out@),
            r is Err ==> r == Err::<Vec<Interval>, RemapError>(RemapError::Overflow)
                && split_overflows(*self, ranges_and_offset@),
            (forall|k: int|
                0 <= k < ranges_and_offset@.len() ==> #[trigger] self.apart(
                    ranges_and_offset@[k].0,
                )) ==> (r matches Ok(out) && out@ == seq![*self]),
    {
        let ghost rs = ranges_and_offset@;
        let pieces = self.split_pieces(ranges_and_offset);
        proof {
            if forall|k: int| 0 <= k < rs.len() ==> #[trigger] self.apart(rs[k].0) {
                assert forall|k: int| 0 <= k < rs.len() implies #[trigger] self.inside(rs[k].0)
                    || self.apart(rs[k].0) by {
                    assert(self.apart(rs[k].0));
                }
                assert(pieces@ == seq![*self]);
                assert forall|q: int| 0 <= q < rs.len() implies !self.inside(#[trigger] rs[q].0) by {
                    assert(self.apart(rs[q].0));
                    rs[q].0.lemma_wf();
                }
                lemma_offset_none(rs, 0, *self);
                assert forall|i: int| 0 <= i < pieces@.len() implies offset_of(
                    rs,
                    #[trigger] pieces@[i],
                ) == 0 by {
                    assert(pieces@[i] == *self);
                }
            }
        }
        let r = shift_pieces(&pieces, ranges_and_offset);
        proof {
            if r is Ok {
                assert(is_split_of(pieces@, *self, rs));
            } else {
                assert(is_split_of(pieces@, *self, rs));
            }
        }
        r
    }
}

/// Two pieces of a split that start at the same value are the same piece.
proof fn lemma_distinct_starts(pieces: Seq<Interval>, t: Interval, rs: Seq<(Interval, i64)>, i: int, j: int)
    requires
        is_split_of(pieces, t, rs),
        0 <= i < pieces.len(),
        0 <= j < pieces.len(),
        pieces[i].lo() == pieces[j].lo(),
    ensures
        i == j,
{
    if i != j {
        assert(pieces[i].apart(pieces[j]));
        assert(pieces[i].wf() && pieces[j].wf());
    }
}

/// A split whose pieces all start where `t` starts is `t` alone.
proof fn lemma_one_piece(pieces: Seq<Interval>, t: Interval, rs: Seq<(Interval, i64)>)
    requires
        t.wf(),
        is_split_of(pieces, t, rs),
        forall|i: int| 0 <= i < pieces.len() ==> #[trigger] pieces[i].lo() == t.lo(),
    ensures
        pieces == seq![t],
{
    assert(t.has(t.lo()));
    let a = choose|a: int| 0 <= a < pieces.len() && #[trigger] pieces[a].has(t.lo());
    if pieces.len() > 1 {
        let b = if a == 0 { 1int } else { 0int };
        lemma_distinct_starts(pieces, t, rs, a, b);
    }
    assert(t.has(t.hi() - 1));
    let c = choose|c: int| 0 <= c < pieces.len() && #[trigger] pieces[c].has(t.hi() - 1);
    assert(pieces[0].inside(t));
    pieces[0].lemma_same_bounds(t);
    assert(pieces =~= seq![t]);
}

/// A seed that lies inside the one rule's interval is moved whole by its offset,
/// with no cut.
pub proof fn lemma_contained_seed_moves_whole(t: Interval, r: Interval, d: i64, out: Seq<Interval>)
    requires
        t.wf(),
        r.wf(),
        t.inside(r),
        split_result(t, seq![(r, d)], out),
    ensures
        out.len() == 1,
        t.moved(out[0], d as int),
{
    let rs = seq![(r, d)];
    let pieces = choose|pieces: Seq<Interval>| #[trigger] is_split_of(pieces, t, rs) && shifted_all(pieces, rs, out);
    assert forall|i: int| 0 <= i < pieces.len() implies #[trigger] pieces[i].lo() == t.lo() by {
        assert(pieces[i].inside(t));
        assert(pieces[i].wf());
        if pieces[i].lo() != t.lo() {
            let k = choose|k: int| 0 <= k < 1 && (#[trigger] rs[k].0.lo() == pieces[i].lo() || rs[k].0.hi() == pieces[i].lo());
        }
    }
    lemma_one_piece(pieces, t, rs);
    assert(pieces[0] == t);
    assert(offset_of(rs, t) == d);
}

/// A seed that ends where the one rule's interval starts is not cut and not moved.
pub proof fn lemma_touching_seed_not_split(t: Interval, r: Interval, d: i64, out: Seq<Interval>)
    requires
        t.wf(),
        r.wf(),
        t.hi() == r.lo(),
        split_result(t, seq![(r, d)], out),
    ensures
        out == seq![t],
{
    let rs = seq![(r, d)];
    let pieces = choose|pieces: Seq<Interval>| #[trigger] is_split_of(pieces, t, rs) && shifted_all(pieces, rs, out);
    assert forall|i: int| 0 <= i < pieces.len() implies #[trigger] pieces[i].lo() == t.lo() by {
        assert(pieces[i].inside(t));
        assert(pieces[i].wf());
        if pieces[i].lo() != t.lo() {
            let k = choose|k: int| 0 <= k < 1 && (#[trigger] rs[k].0.lo() == pieces[i].lo() || rs[k].0.hi() == pieces[i].lo());
        }
    }
    lemma_one_piece(pieces, t, rs);
    assert(!t.inside(r));
    assert(rs[0].0 == r);
    assert(offset_from(rs, 1, t) == 0);
    assert(offset_of(rs, t) == 0);
    assert(pieces[0] == t);
    assert(t.moved(out[0], 0));
    t.lemma_same_bounds(out[0]);
    assert(out =~= seq![t]);
}

/// A seed that starts in one rule's interval and ends in the next, the two
/// intervals abutting, is cut in two where they meet; each part moves by its own
/// rule's offset, and the two parts together are as long as the seed.
pub proof fn lemma_straddling_seed_splits_in_two(
    t: Interval,
    r1: Interval,
    d1: i64,
    r2: Interval,
    d2: i64,
    out: Seq<Interval>,
)
    requires
        t.wf(),
        r1.wf(),
        r2.wf(),
        r1.hi() == r2.lo(),
        r1.lo() <= t.lo() < r1.hi(),
        r2.lo() < t.hi() <= r2.hi(),
        split_result(t, seq![(r1, d1), (r2, d2)], out),
    ensures
        out.len() == 2,
        exists|a: int, b: int|
            #![trigger out[a], out[b]]
            0 <= a < 2 && 0 <= b < 2 && a != b && out[a].lo() == t.lo() + d1 && out[a].hi() == r1.hi()
                + d1 && out[b].lo() == r1.hi() + d2 && out[b].hi() == t.hi() + d2,
        (out[0].hi() - out[0].lo()) + (out[1].hi() - out[1].lo()) == t.hi() - t.lo(),
{
    let rs = seq![(r1, d1), (r2, d2)];
    let m = r1.hi();
    let pieces = choose|pieces: Seq<Interval>| #[trigger] is_split_of(pieces, t, rs) && shifted_all(pieces, rs, out);
    assert forall|i: int| 0 <= i < pieces.len() implies #[trigger] pieces[i].lo() == t.lo()
        || pieces[i].lo() == m by {
        assert(pieces[i].inside(t));
        assert(pieces[i].wf());
        if pieces[i].lo() != t.lo() {
            let k = choose|k: int| 0 <= k < 2 && (#[trigger] rs[k].0.lo() == pieces[i].lo() || rs[k].0.hi() == pieces[i].lo());
        }
    }
    assert(t.has(t.lo()));
    let a = choose|a: int| 0 <= a < pieces.len() && #[trigger] pieces[a].has(t.lo());
    assert(t.has(m));
    let b = choose|b: int| 0 <= b < pieces.len() && #[trigger] pieces[b].has(m);
    let pa = pieces[a];
    let pb = pieces[b];
    assert(pa.inside(t));
    assert(pa.lo() == t.lo());
    assert(aligned_upto(pa, rs, 2));
    assert(pa.inside(rs[0].0) || pa.apart(rs[0].0));
    assert(pa.inside(r1));
    assert(pb.lo() == m) by {
        if pb.lo() != m {
            assert(pb.lo() == t.lo());
            lemma_distinct_starts(pieces, t, rs, a, b);
        }
    }
    assert(a != b);
    if pieces.len() > 2 {
        let c = if a != 0 && b != 0 { 0int } else if a != 1 && b != 1 { 1int } else { 2int };
        assert(pieces[c].lo() == t.lo() || pieces[c].lo() == m);
        if pieces[c].lo() == t.lo() {
            lemma_distinct_starts(pieces, t, rs, a, c);
        } else {
            lemma_distinct_starts(pieces, t, rs, b, c);
        }
    }
    assert(pieces.len() == 2);
    assert(pa.hi() == m) by {
        assert(pa.wf());
        if pa.hi() != t.hi() {
            let k = choose|k: int| 0 <= k < 2 && (#[trigger] rs[k].0.lo() == pa.hi() || rs[k].0.hi() == pa.hi());
        }
    }
    assert(aligned_upto(pb, rs, 2));
    assert(pb.inside(rs[1].0) || pb.apart(rs[1].0));
    assert(pb.inside(t));
    assert(pb.hi() == t.hi()) by {
        assert(pb.wf());
        if pb.hi() != t.hi() {
            let k = choose|k: int| 0 <= k < 2 && (#[trigger] rs[k].0.lo() == pb.hi() || rs[k].0.hi() == pb.hi());
        }
    }
    assert(offset_of(rs, pa) == d1);
    assert(!pb.inside(r1));
    assert(offset_from(rs, 1, pb) == d2);
    assert(offset_of(rs, pb) == d2);
    assert(pa.moved(out[a], d1 as int));
    assert(pb.moved(out[b], d2 as int));
}

/// Of `a` inside `b`, `b` inside `a`, `a` crossing the left edge of `b`, `a` crossing
/// its right edge, `a` crossing both edges and the two being apart, exactly one
/// holds, wherever `b` does not lie inside `a` (there `b` inside `a` holds beside one
/// of the others, or beside `a` inside `b` when the two are equal).
pub proof fn lemma_one_relation(a: Interval, b: Interval)
    requires
        a.wf(),
        b.wf(),
        !b.inside(a),
    ensures
        a.inside(b) || b.inside(a) || a.left_of(b) || a.right_of(b) || a.both_sides_of(b)
            || a.apart(b),
        !(a.inside(b) && b.inside(a)),
        !(a.inside(b) && a.left_of(b)),
        !(a.inside(b) && a.right_of(b)),
        !(a.inside(b) && a.both_sides_of(b)),
        !(a.inside(b) && a.apart(b)),
        !(b.inside(a) && a.left_of(b)),
        !(b.inside(a) && a.right_of(b)),
        !(b.inside(a) && a.both_sides_of(b)),
        !(b.inside(a) && a.apart(b)),
        !(a.left_of(b) && a.right_of(b)),
        !(a.left_of(b) && a.both_sides_of(b)),
        !(a.left_of(b) && a.apart(b)),
        !(a.right_of(b) && a.both_sides_of(b)),
        !(a.right_of(b) && a.apart(b)),
        !(a.both_sides_of(b) && a.apart(b)),
{
}

/// For any two intervals exactly one of these holds: `a` lies inside `b`, crosses
/// its left edge, crosses its right edge, crosses both, or the two are apart. These
/// are the cases that splitting tells apart.
pub proof fn lemma_split_cases(a: Interval, b: Interval)
    requires
        a.wf(),
        b.wf(),
    ensures
        a.inside(b) || a.left_of(b) || a.right_of(b) || a.both_sides_of(b) || a.apart(b),
        !(a.inside(b) && a.left_of(b)),
        !(a.inside(b) && a.right_of(b)),
        !(a.inside(b) && a.both_sides_of(b)),
        !(a.inside(b) && a.apart(b)),
        !(a.left_of(b) && a.right_of(b)),
        !(a.left_of(b) && a.both_sides_of(b)),
        !(a.left_of(b) && a.apart(b)),
        !(a.right_of(b) && a.both_sides_of(b)),
        !(a.right_of(b) && a.apart(b)),
        !(a.both_sides_of(b) && a.apart(b)),
{
}

/// Moving by `d1` and then by `d2` is moving once by `d1 + d2`: where both moves
/// succeed, the single move succeeds too and gives the same interval.
pub proof fn lemma_shift_twice(t: Interval, u: Interval, w: Interval, d1: int, d2: int)
    requires
        t.moved(u, d1),
        u.moved(w, d2),
    ensures
        t.moved(w, d1 + d2),
        i64::MIN <= t.lo() + (d1 + d2) && t.hi() + (d1 + d2) <= i64::MAX,
        forall|x: Interval| #[trigger] t.moved(x, d1 + d2) ==> x == w,
{
    assert forall|x: Interval| #[trigger] t.moved(x, d1 + d2) implies x == w by {
        x.lemma_same_bounds(w);
    }
}

} // verus!
