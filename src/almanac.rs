use vstd::prelude::*;

use crate::interval::{
    aligned_upto, all_fit, all_wf, covers, edge_upto, lemma_offset_none, offset_from, offset_of,
    pairwise_apart,
    rules_wf, shift_pieces, shifted_all, split_overflows, split_result, Interval, RemapError,
};

verus! {

/// `p` lies inside an interval `w` of `ws` and each of its ends is an end of `w` or
/// an edge of a rule interval.
pub open spec fn owned_piece(p: Interval, ws: Seq<Interval>, rs: Seq<(Interval, i64)>) -> bool {
    exists|w: int|
        0 <= w < ws.len() && #[trigger] p.inside(ws[w]) && (p.lo() == ws[w].lo() || edge_upto(
            rs,
            rs.len() as int,
            p.lo(),
        )) && (p.hi() == ws[w].hi() || edge_upto(rs, rs.len() as int, p.hi()))
}

/// `pieces` is the working set `ws` cut at the rule edges: together the pieces hold
/// exactly the values of `ws`, each lies inside or apart from every rule interval,
/// and where the intervals of `ws` share no value, neither do the pieces.
pub open spec fn is_stage_split(pieces: Seq<Interval>, ws: Seq<Interval>, rs: Seq<(Interval, i64)>) -> bool {
    &&& all_wf(pieces)
    &&& forall|i: int| 0 <= i < pieces.len() ==> owned_piece(#[trigger] pieces[i], ws, rs)
    &&& forall|v: int| covers(pieces, v) <==> covers(ws, v)
    &&& forall|i: int| 0 <= i < pieces.len() ==> aligned_upto(#[trigger] pieces[i], rs, rs.len() as int)
    &&& pairwise_apart(ws) ==> pairwise_apart(pieces)
}

/// Cutting `ws` at the rule edges and moving each piece by its rule's offset gives `out`.
pub open spec fn stage_result(ws: Seq<Interval>, rs: Seq<(Interval, i64)>, out: Seq<Interval>) -> bool {
    exists|pieces: Seq<Interval>|
        #[trigger] is_stage_split(pieces, ws, rs) && shifted_all(pieces, rs, out)
}

/// Cutting `ws` at the rule edges leaves a piece that its rule's offset moves out of `i64`.
pub open spec fn stage_overflows(ws: Seq<Interval>, rs: Seq<(Interval, i64)>) -> bool {
    exists|pieces: Seq<Interval>| #[trigger] is_stage_split(pieces, ws, rs) && !all_fit(pieces, rs)
}

/// No rule interval shares a value with an interval of `ws`.
pub open spec fn untouched_by(ws: Seq<Interval>, rs: Seq<(Interval, i64)>) -> bool {
    forall|w: int, k: int|
        0 <= w < ws.len() && 0 <= k < rs.len() ==> #[trigger] ws[w].apart(#[trigger] rs[k].0)
}

/// Cuts every interval of the working set at the rule edges, moving nothing.
pub fn split_working_set(locations: &Vec<Interval>, rules: &[(Interval, i64)]) -> (pieces: Vec<
    Interval,
>)
    requires
        all_wf(locations@),
        rules_wf(rules@),
    ensures
        is_stage_split(pieces@, locations@, rules@),
        forall|v: int| covers(pieces@, v) <==> covers(locations@, v),
        pairwise_apart(locations@) ==> pairwise_apart(pieces@),
        untouched_by(locations@, rules@) ==> pieces@ == locations@,
{
    let ghost ws = locations@;
    let ghost rs = rules@;
    let mut acc: Vec<Interval> = Vec::new();
    let ghost mut owner: Seq<int> = Seq::empty();
    let mut i: usize = 0;
    while i < locations.len()
        invariant
            ws == locations@,
            rs == rules@,
            all_wf(ws),
            rules_wf(rs),
            i <= ws.len(),
            all_wf(acc@),
            owner.len() == acc@.len(),
            forall|a: int|
                0 <= a < acc@.len() ==> 0 <= #[trigger] owner[a] < i && acc@[a].inside(ws[owner[a]])
                    && (acc@[a].lo() == ws[owner[a]].lo() || edge_upto(rs, rs.len() as int, acc@[a].lo()))
                    && (acc@[a].hi() == ws[owner[a]].hi() || edge_upto(rs, rs.len() as int, acc@[a].hi())),
            forall|m: int, v: int| 0 <= m < i && #[trigger] ws[m].has(v) ==> covers(acc@, v),
            forall|a: int| 0 <= a < acc@.len() ==> aligned_upto(#[trigger] acc@[a], rs, rs.len() as int),
            pairwise_apart(ws) ==> pairwise_apart(acc@),
            untouched_by(ws, rs) ==> acc@ == ws.subrange(0, i as int),
        decreases ws.len() - i,
    {
        let t = locations[i];
        assert(t.wf());
        let mut ps = t.split_pieces(rules);
        let ghost pv = ps@;
        let ghost old_acc = acc@;
        let ghost n = old_acc.len();
        acc.append(&mut ps);
        proof {
            let new_owner = owner + Seq::new(pv.len(), |_a: int| i as int);
            assert(acc@ == old_acc + pv);
            assert forall|a: int| 0 <= a < acc@.len() implies 0 <= #[trigger] new_owner[a] < i + 1
                && acc@[a].inside(ws[new_owner[a]]) && (acc@[a].lo() == ws[new_owner[a]].lo()
                || edge_upto(rs, rs.len() as int, acc@[a].lo())) && (acc@[a].hi()
                == ws[new_owner[a]].hi() || edge_upto(rs, rs.len() as int, acc@[a].hi())) by {
                if a >= n {
                    assert(acc@[a] == pv[a - n]);
                    assert(pv[a - n].inside(t));
                    assert(pv[a - n].lo() == t.lo() || edge_upto(rs, rs.len() as int, pv[a - n].lo()));
                    assert(pv[a - n].hi() == t.hi() || edge_upto(rs, rs.len() as int, pv[a - n].hi()));
                } else {
                    assert(acc@[a] == old_acc[a]);
                }
            }
            assert forall|m: int, v: int| 0 <= m < i + 1 && #[trigger] ws[m].has(v) implies covers(
                acc@,
                v,
            ) by {
                if m < i {
                    let a = choose|a: int| 0 <= a < old_acc.len() && #[trigger] old_acc[a].has(v);
                    assert(acc@[a] == old_acc[a]);
                } else {
                    let c = choose|c: int| 0 <= c < pv.len() && #[trigger] pv[c].has(v);
                    assert(acc@[n + c] == pv[c]);
                }
            }
            assert forall|a: int| 0 <= a < acc@.len() implies aligned_upto(
                #[trigger] acc@[a],
                rs,
                rs.len() as int,
            ) by {
                if a >= n {
                    assert(acc@[a] == pv[a - n]);
                } else {
                    assert(acc@[a] == old_acc[a]);
                }
            }
            if pairwise_apart(ws) {
                assert forall|a: int, b: int|
                    0 <= a < acc@.len() && 0 <= b < acc@.len() && a != b implies #[trigger] acc@[a].apart(
                    #[trigger] acc@[b],
                ) by {
                    if a < n && b >= n {
                        assert(ws[owner[a]].apart(ws[i as int]));
                        assert(old_acc[a].inside(ws[owner[a]]));
                        assert(acc@[a] == old_acc[a]);
                        assert(acc@[b] == pv[b - n]);
                        assert(pv[b - n].inside(t));
                    } else if a >= n && b < n {
                        assert(ws[owner[b]].apart(ws[i as int]));
                        assert(old_acc[b].inside(ws[owner[b]]));
                        assert(acc@[b] == old_acc[b]);
                        assert(acc@[a] == pv[a - n]);
                        assert(pv[a - n].inside(t));
                    } else if a >= n && b >= n {
                        assert(acc@[a] == pv[a - n]);
                        assert(acc@[b] == pv[b - n]);
                    } else {
                        assert(acc@[a] == old_acc[a]);
                        assert(acc@[b] == old_acc[b]);
                    }
                }
            }
            if untouched_by(ws, rs) {
                assert forall|k: int| 0 <= k < rs.len() implies #[trigger] t.inside(rs[k].0)
                    || t.apart(rs[k].0) by {
                    assert(ws[i as int].apart(rs[k].0));
                }
                assert(pv == seq![t]);
                assert(acc@ =~= ws.subrange(0, i + 1));
            }
            owner = new_owner;
        }
        i += 1;
    }
    proof {
        assert forall|a: int| 0 <= a < acc@.len() implies owned_piece(#[trigger] acc@[a], ws, rs) by {
            let w = owner[a];
            assert(acc@[a].inside(ws[w]));
        }
        assert forall|v: int| covers(acc@, v) <==> covers(ws, v) by {
            if covers(acc@, v) {
                let a = choose|a: int| 0 <= a < acc@.len() && #[trigger] acc@[a].has(v);
                assert(acc@[a].inside(ws[owner[a]]));
                assert(ws[owner[a]].has(v));
            }
            if covers(ws, v) {
                let m = choose|m: int| 0 <= m < ws.len() && #[trigger] ws[m].has(v);
            }
        }
        if untouched_by(ws, rs) {
            assert(acc@ =~= ws);
        }
    }
    acc
}

/// Applies one stage to the working set: cuts its intervals at the rule edges and
/// moves each piece by the offset of the first rule whose interval holds it.
pub fn remap_stage(locations: &Vec<Interval>, rules: &[(Interval, i64)]) -> (r: Result<
    Vec<Interval>,
    RemapError,
>)
    requires
        all_wf(locations@),
        rules_wf(rules@),
    ensures
        r matches Ok(out) ==> stage_result(locations@, rules@, out@),
        r is Err ==> r == Err::<Vec<Interval>, RemapError>(RemapError::Overflow)
            && stage_overflows(locations@, rules@),
        untouched_by(locations@, rules@) ==> (r matches Ok(out) && out@ == locations@),
{
    let ghost rs = rules@;
    let pieces = split_working_set(locations, rules);
    proof {
        if untouched_by(locations@, rs) {
            assert forall|i: int| 0 <= i < pieces@.len() implies offset_of(
                rs,
                #[trigger] pieces@[i],
            ) == 0 by {
                let p = pieces@[i];
                assert(p == locations@[i]);
                assert forall|q: int| 0 <= q < rs.len() implies !p.inside(#[trigger] rs[q].0) by {
                    assert(locations@[i].apart(rs[q].0));
                    assert(p.wf());
                    p.lemma_wf();
                    rs[q].0.lemma_wf();
                }
                lemma_offset_none(rs, 0, p);
            }
        }
    }
    let r = shift_pieces(&pieces, rules);
    proof {
        assert(is_stage_split(pieces@, locations@, rs));
    }
    r
}

/// The working set after each of the first `n` stages, from `seeds` to `out`.
pub open spec fn chain_of(
    chain: Seq<Seq<Interval>>,
    seeds: Seq<Interval>,
    stages: Seq<Seq<(Interval, i64)>>,
    n: int,
    out: Seq<Interval>,
) -> bool {
    &&& chain.len() == n + 1
    &&& chain[0] == seeds
    &&& chain[n] == out
    &&& forall|k: int| 0 <= k < n ==> stage_result(#[trigger] chain[k], stages[k], chain[k + 1])
}

/// Applying the first `n` stages to `seeds` gives `out`.
pub open spec fn runs_to(
    seeds: Seq<Interval>,
    stages: Seq<Seq<(Interval, i64)>>,
    n: int,
    out: Seq<Interval>,
) -> bool {
    exists|chain: Seq<Seq<Interval>>| #[trigger] chain_of(chain, seeds, stages, n, out)
}

/// The rule lists of the stages, as sequences.
pub open spec fn stage_views(stages: Seq<Vec<(Interval, i64)>>) -> Seq<Seq<(Interval, i64)>> {
    stages.map_values(|s: Vec<(Interval, i64)>| s@)
}

pub open spec fn stages_wf(stages: Seq<Vec<(Interval, i64)>>) -> bool {
    forall|k: int| 0 <= k < stages.len() ==> rules_wf(#[trigger] stages[k]@)
}

/// Some stage, reached from `seeds`, moves a piece out of `i64`.
pub open spec fn run_overflows(seeds: Seq<Interval>, stages: Seq<Seq<(Interval, i64)>>) -> bool {
    exists|k: int, ws: Seq<Interval>|
        0 <= k < stages.len() && #[trigger] runs_to(seeds, stages, k, ws) && stage_overflows(
            ws,
            stages[k],
        )
}

/// Applies the stages in order, each to the working set that the one before left.
pub fn run_stages(seeds: &Vec<Interval>, stages: &Vec<Vec<(Interval, i64)>>) -> (r: Result<
    Vec<Interval>,
    RemapError,
>)
    requires
        all_wf(seeds@),
        stages_wf(stages@),
    ensures
        r matches Ok(out) ==> runs_to(seeds@, stage_views(stages@), stages@.len() as int, out@),
        r is Err ==> r == Err::<Vec<Interval>, RemapError>(RemapError::Overflow) && run_overflows(
            seeds@,
            stage_views(stages@),
        ),
{
    let ghost sv = stage_views(stages@);
    let mut current: Vec<Interval> = seeds.clone();
    let ghost mut chain: Seq<Seq<Interval>> = seq![seeds@];
    let mut k: usize = 0;
    while k < stages.len()
        invariant
            sv == stage_views(stages@),
            stages_wf(stages@),
            k <= stages@.len(),
            all_wf(current@),
            chain_of(chain, seeds@, sv, k as int, current@),
        decreases stages@.len() - k,
    {
        assert(rules_wf(stages@[k as int]@));
        assert(sv[k as int] == stages@[k as int]@);
        match remap_stage(&current, stages[k].as_slice()) {
            Ok(next) => {
                proof {
                    let c2 = chain.push(next@);
                    assert forall|q: int| 0 <= q < k + 1 implies stage_result(
                        #[trigger] c2[q],
                        sv[q],
                        c2[q + 1],
                    ) by {
                        if q < k {
                            assert(c2[q] == chain[q]);
                            assert(c2[q + 1] == chain[q + 1]);
                        }
                    }
                    let pieces = choose|pieces: Seq<Interval>|
                        #[trigger] is_stage_split(pieces, current@, sv[k as int]) && shifted_all(
                            pieces,
                            sv[k as int],
                            next@,
                        );
                    assert(chain_of(c2, seeds@, sv, k + 1, next@));
                    chain = c2;
                }
                current = next;
            },
            Err(e) => {
                proof {
                    assert(runs_to(seeds@, sv, k as int, current@));
                }
                return Err(e);
            },
        }
        k += 1;
    }
    proof {
        assert(runs_to(seeds@, sv, k as int, current@));
    }
    Ok(current)
}

/// `m` is the least start of an interval of `ws`.
pub open spec fn is_min_start(ws: Seq<Interval>, m: int) -> bool {
    &&& exists|i: int| 0 <= i < ws.len() && #[trigger] ws[i].lo() == m
    &&& forall|i: int| 0 <= i < ws.len() ==> m <= #[trigger] ws[i].lo()
}

/// A stage leaves a non-empty working set non-empty.
proof fn lemma_stage_keeps_values(ws: Seq<Interval>, rs: Seq<(Interval, i64)>, out: Seq<Interval>)
    requires
        all_wf(ws),
        ws.len() > 0,
        stage_result(ws, rs, out),
    ensures
        all_wf(out),
        out.len() > 0,
{
    let pieces = choose|pieces: Seq<Interval>|
        #[trigger] is_stage_split(pieces, ws, rs) && shifted_all(pieces, rs, out);
    assert(ws[0].wf());
    ws[0].lemma_wf();
    assert(ws[0].has(ws[0].lo()));
    assert(covers(ws, ws[0].lo()));
    assert(covers(pieces, ws[0].lo()));
}

/// Every working set along a run from a non-empty one is non-empty.
proof fn lemma_run_keeps_values(
    seeds: Seq<Interval>,
    stages: Seq<Seq<(Interval, i64)>>,
    n: int,
    out: Seq<Interval>,
)
    requires
        all_wf(seeds),
        seeds.len() > 0,
        0 <= n,
        runs_to(seeds, stages, n, out),
    ensures
        out.len() > 0,
{
    let chain = choose|chain: Seq<Seq<Interval>>| #[trigger] chain_of(chain, seeds, stages, n, out);
    lemma_chain_keeps_values(chain, seeds, stages, n, out, n);
}

proof fn lemma_chain_keeps_values(
    chain: Seq<Seq<Interval>>,
    seeds: Seq<Interval>,
    stages: Seq<Seq<(Interval, i64)>>,
    n: int,
    out: Seq<Interval>,
    k: int,
)
    requires
        all_wf(seeds),
        seeds.len() > 0,
        0 <= k <= n,
        chain_of(chain, seeds, stages, n, out),
    ensures
        all_wf(chain[k]),
        chain[k].len() > 0,
    decreases k,
{
    if k > 0 {
        lemma_chain_keeps_values(chain, seeds, stages, n, out, k - 1);
        assert(stage_result(chain[k - 1], stages[k - 1], chain[k]));
        lemma_stage_keeps_values(chain[k - 1], stages[k - 1], chain[k]);
    }
}

/// The least start over the working set; an empty set has none.
pub fn min_start(locations: &Vec<Interval>) -> (r: Result<i64, RemapError>)
    ensures
        r matches Ok(m) ==> is_min_start(locations@, m as int),
        r is Err <==> locations@.len() == 0,
        r is Err ==> r == Err::<i64, RemapError>(RemapError::NoIntervals),
{
    if locations.len() == 0 {
        return Err(RemapError::NoIntervals);
    }
    let mut best: i64 = locations[0].start();
    let mut i: usize = 1;
    while i < locations.len()
        invariant
            1 <= i <= locations@.len(),
            exists|j: int| 0 <= j < i && #[trigger] locations@[j].lo() == best,
            forall|j: int| 0 <= j < i ==> best <= #[trigger] locations@[j].lo(),
        decreases locations@.len() - i,
    {
        let s = locations[i].start();
        if s < best {
            best = s;
        }
        i += 1;
    }
    Ok(best)
}

/// Runs the working set through every stage and gives the least start that remains.
pub fn lowest_location(seeds: &Vec<Interval>, stages: &Vec<Vec<(Interval, i64)>>) -> (r: Result<
    i64,
    RemapError,
>)
    requires
        all_wf(seeds@),
        stages_wf(stages@),
    ensures
        r matches Ok(m) ==> exists|out: Seq<Interval>|
            #[trigger] runs_to(seeds@, stage_views(stages@), stages@.len() as int, out)
                && is_min_start(out, m as int),
        r == Err::<i64, RemapError>(RemapError::Overflow) ==> run_overflows(
            seeds@,
            stage_views(stages@),
        ),
        r == Err::<i64, RemapError>(RemapError::NoIntervals) ==> exists|out: Seq<Interval>|
            #[trigger] runs_to(seeds@, stage_views(stages@), stages@.len() as int, out) && out.len()
                == 0,
        r is Err ==> r == Err::<i64, RemapError>(RemapError::Overflow) || r == Err::<
            i64,
            RemapError,
        >(RemapError::NoIntervals),
        seeds@.len() > 0 && !run_overflows(seeds@, stage_views(stages@)) ==> r is Ok,
{
    let out = run_stages(seeds, stages)?;
    proof {
        if seeds@.len() > 0 {
            lemma_run_keeps_values(seeds@, stage_views(stages@), stages@.len() as int, out@);
        }
    }
    min_start(&out)
}

/// One stage as read from the almanac: records `(destination start, source start,
/// length)`.
#[derive(Debug)]
pub struct AlmanacMap {
    pub mappings: Vec<(i64, i64, i64)>,
}

/// A record's source interval and the interval it is sent to.
#[derive(Debug, Clone, Copy)]
pub struct FromTo {
    pub from: Interval,
    pub to: Interval,
}

/// The record `m` sends `v` somewhere: `v` lies in its source interval.
pub open spec fn in_source(m: (i64, i64, i64), v: int) -> bool {
    m.1 <= v < m.1 + m.2
}

/// Where the records from index `k` on send `v`: the first whose source holds `v`
/// adds its offset; with none, `v` stays.
pub open spec fn value_from(ms: Seq<(i64, i64, i64)>, k: int, v: int) -> int
    decreases ms.len() - k,
{
    if 0 <= k < ms.len() {
        if in_source(ms[k], v) {
            v + ms[k].0 - ms[k].1
        } else {
            value_from(ms, k + 1, v)
        }
    } else {
        v
    }
}

/// Where a stage with records `ms` sends the value `v`.
pub open spec fn map_value(ms: Seq<(i64, i64, i64)>, v: int) -> int {
    value_from(ms, 0, v)
}

pub open spec fn in_i64(x: int) -> bool {
    i64::MIN <= x <= i64::MAX
}

/// The record gives a non-empty source, a destination within `i64` and an offset
/// within `i64`.
pub open spec fn mapping_ok(m: (i64, i64, i64)) -> bool {
    &&& m.2 > 0
    &&& m.1 + m.2 <= i64::MAX
    &&& m.0 + m.2 <= i64::MAX
    &&& in_i64(m.0 - m.1)
}

/// The error that a bad record gives.
pub open spec fn mapping_error(m: (i64, i64, i64)) -> RemapError {
    if m.2 <= 0 {
        RemapError::MalformedInterval
    } else {
        RemapError::Overflow
    }
}

pub open spec fn mappings_ok(ms: Seq<(i64, i64, i64)>) -> bool {
    forall|i: int| 0 <= i < ms.len() ==> mapping_ok(#[trigger] ms[i])
}

/// The record at `i` is the first bad one, and `e` is its error.
pub open spec fn first_bad_mapping(ms: Seq<(i64, i64, i64)>, i: int, e: RemapError) -> bool {
    &&& 0 <= i < ms.len()
    &&& !mapping_ok(ms[i])
    &&& forall|j: int| 0 <= j < i ==> mapping_ok(#[trigger] ms[j])
    &&& e == mapping_error(ms[i])
}

/// `f` holds the source and destination intervals of the record `m`.
pub open spec fn fromto_of(f: FromTo, m: (i64, i64, i64)) -> bool {
    &&& f.from.wf() && f.to.wf()
    &&& f.from.lo() == m.1 && f.from.hi() == m.1 + m.2
    &&& f.to.lo() == m.0 && f.to.hi() == m.0 + m.2
}

/// `r` is the rule of the record `m`: its source interval and offset.
pub open spec fn rule_of(r: (Interval, i64), m: (i64, i64, i64)) -> bool {
    &&& r.0.wf()
    &&& r.0.lo() == m.1 && r.0.hi() == m.1 + m.2
    &&& r.1 == m.0 - m.1
}

pub open spec fn rules_of(ms: Seq<(i64, i64, i64)>, rs: Seq<(Interval, i64)>) -> bool {
    rs.len() == ms.len() && forall|i: int| 0 <= i < ms.len() ==> rule_of(#[trigger] rs[i], ms[i])
}

impl FromTo {
    /// How far the record moves a value.
    pub fn offset(&self) -> (r: i64)
        requires
            in_i64(self.to.lo() - self.from.lo()),
        ensures
            r == self.to.lo() - self.from.lo(),
    {
        self.to.start() - self.from.start()
    }
}

impl AlmanacMap {
    /// Where this stage sends `val`; refused where the result leaves `i64`.
    pub fn transform(&self, val: i64) -> (r: Result<i64, RemapError>)
        ensures
            r matches Ok(x) ==> x == map_value(self.mappings@, val as int),
            r is Ok <==> in_i64(map_value(self.mappings@, val as int)),
            r is Err ==> r == Err::<i64, RemapError>(RemapError::Overflow),
    {
        let ghost ms = self.mappings@;
        let v = val as i128;
        let mut k: usize = 0;
        while k < self.mappings.len()
            invariant
                ms == self.mappings@,
                k <= ms.len(),
                v == val,
                map_value(ms, val as int) == value_from(ms, k as int, val as int),
            decreases ms.len() - k,
        {
            let m = self.mappings[k];
            let lo = m.1 as i128;
            if lo <= v && v < lo + m.2 as i128 {
                let x = v + m.0 as i128 - lo;
                if x < i64::MIN as i128 || x > i64::MAX as i128 {
                    return Err(RemapError::Overflow);
                }
                return Ok(x as i64);
            }
            k += 1;
        }
        Ok(val)
    }

    /// The source and destination interval of each record.
    pub fn mappings_as_fromtos(&self) -> (r: Result<Vec<FromTo>, RemapError>)
        ensures
            r matches Ok(v) ==> v@.len() == self.mappings@.len() && forall|i: int|
                0 <= i < v@.len() ==> fromto_of(#[trigger] v@[i], self.mappings@[i]),
            r is Ok <==> mappings_ok(self.mappings@),
            r matches Err(e) ==> exists|i: int| first_bad_mapping(self.mappings@, i, e),
    {
        let ghost ms = self.mappings@;
        let mut out: Vec<FromTo> = Vec::new();
        let mut k: usize = 0;
        while k < self.mappings.len()
            invariant
                ms == self.mappings@,
                k <= ms.len(),
                out@.len() == k,
                forall|i: int| 0 <= i < k ==> mapping_ok(#[trigger] ms[i]),
                forall|i: int| 0 <= i < k ==> fromto_of(#[trigger] out@[i], ms[i]),
            decreases ms.len() - k,
        {
            let m = self.mappings[k];
            if m.2 <= 0 {
                assert(first_bad_mapping(ms, k as int, RemapError::MalformedInterval));
                return Err(RemapError::MalformedInterval);
            }
            match (m.1.checked_add(m.2), m.0.checked_add(m.2), m.0.checked_sub(m.1)) {
                (Some(source_end), Some(dest_end), Some(_)) => {
                    let from = match Interval::new(m.1..source_end) {
                        Ok(i) => i,
                        Err(e) => return Err(e),
                    };
                    let to = match Interval::new(m.0..dest_end) {
                        Ok(i) => i,
                        Err(e) => return Err(e),
                    };
                    out.push(FromTo { from, to });
                },
                _ => {
                    assert(first_bad_mapping(ms, k as int, RemapError::Overflow));
                    return Err(RemapError::Overflow);
                },
            }
            k += 1;
        }
        Ok(out)
    }

    /// The rule of each record: its source interval and its offset.
    pub fn rules(&self) -> (r: Result<Vec<(Interval, i64)>, RemapError>)
        ensures
            r matches Ok(v) ==> rules_of(self.mappings@, v@),
            r is Ok <==> mappings_ok(self.mappings@),
            r matches Err(e) ==> exists|i: int| first_bad_mapping(self.mappings@, i, e),
    {
        let ghost ms = self.mappings@;
        let fromtos = self.mappings_as_fromtos()?;
        let mut out: Vec<(Interval, i64)> = Vec::new();
        let mut k: usize = 0;
        while k < fromtos.len()
            invariant
                ms == self.mappings@,
                fromtos@.len() == ms.len(),
                forall|i: int| 0 <= i < ms.len() ==> fromto_of(#[trigger] fromtos@[i], ms[i]),
                mappings_ok(ms),
                k <= ms.len(),
                out@.len() == k,
                forall|i: int| 0 <= i < k ==> rule_of(#[trigger] out@[i], ms[i]),
            decreases ms.len() - k,
        {
            let f = fromtos[k];
            assert(fromto_of(fromtos@[k as int], ms[k as int]));
            assert(mapping_ok(ms[k as int]));
            out.push((f.from, f.offset()));
            k += 1;
        }
        Ok(out)
    }

    /// Applies this stage to one interval: cut at the record edges, each piece moved
    /// by the offset of the record whose source holds it.
    pub fn transform_interval(&self, location: &Interval) -> (r: Result<Vec<Interval>, RemapError>)
        requires
            location.wf(),
        ensures
            r matches Ok(out) ==> exists|rs: Seq<(Interval, i64)>|
                #[trigger] rules_of(self.mappings@, rs) && split_result(*location, rs, out@),
            r matches Err(e) ==> (exists|i: int| first_bad_mapping(self.mappings@, i, e)) || (
            mappings_ok(self.mappings@) && e == RemapError::Overflow && exists|
                rs: Seq<(Interval, i64)>,
            | #[trigger] rules_of(self.mappings@, rs) && split_overflows(*location, rs)),
            r is Err ==> !mappings_ok(self.mappings@) || exists|rs: Seq<(Interval, i64)>|
                #[trigger] rules_of(self.mappings@, rs) && split_overflows(*location, rs),
    {
        let rules = self.rules()?;
        proof {
            assert forall|k: int| 0 <= k < rules@.len() implies #[trigger] rules@[k].0.wf() by {
                assert(rule_of(rules@[k], self.mappings@[k]));
            }
            assert(rules_of(self.mappings@, rules@));
        }
        location.split_on_ranges(rules.as_slice())
    }
}

/// The rules of every stage.
pub fn almanac_rules(maps: &Vec<AlmanacMap>) -> (r: Result<Vec<Vec<(Interval, i64)>>, RemapError>)
    ensures
        r matches Ok(st) ==> st@.len() == maps@.len() && forall|k: int|
            0 <= k < maps@.len() ==> rules_of(#[trigger] maps@[k].mappings@, st@[k]@),
        r matches Ok(st) ==> stages_wf(st@),
        r is Ok <==> forall|k: int| 0 <= k < maps@.len() ==> mappings_ok(#[trigger] maps@[k].mappings@),
        r matches Err(e) ==> exists|k: int, i: int|
            0 <= k < maps@.len() && (forall|j: int| 0 <= j < k ==> mappings_ok(#[trigger] maps@[j].mappings@))
                && #[trigger] first_bad_mapping(maps@[k].mappings@, i, e),
{
    let mut out: Vec<Vec<(Interval, i64)>> = Vec::new();
    let mut k: usize = 0;
    while k < maps.len()
        invariant
            k <= maps@.len(),
            out@.len() == k,
            forall|j: int| 0 <= j < k ==> mappings_ok(#[trigger] maps@[j].mappings@),
            forall|j: int| 0 <= j < k ==> rules_of(#[trigger] maps@[j].mappings@, out@[j]@),
        decreases maps@.len() - k,
    {
        match maps[k].rules() {
            Ok(rules) => {
                out.push(rules);
            },
            Err(e) => {
                let ghost i = choose|i: int| first_bad_mapping(maps@[k as int].mappings@, i, e);
                assert(first_bad_mapping(maps@[k as int].mappings@, i, e));
                return Err(e);
            },
        }
        k += 1;
    }
    proof {
        assert forall|j: int| 0 <= j < out@.len() implies rules_wf(#[trigger] out@[j]@) by {
            assert(rules_of(maps@[j].mappings@, out@[j]@));
            assert forall|q: int| 0 <= q < out@[j]@.len() implies #[trigger] out@[j]@[q].0.wf() by {
                assert(rule_of(out@[j]@[q], maps@[j].mappings@[q]));
            }
        }
    }
    Ok(out)
}

/// The seed pair `(start, length)` gives a non-empty interval within `i64`.
pub open spec fn pair_ok(p: (i64, i64)) -> bool {
    p.1 > 0 && p.0 + p.1 <= i64::MAX
}

pub open spec fn pair_error(p: (i64, i64)) -> RemapError {
    if p.1 <= 0 {
        RemapError::MalformedInterval
    } else {
        RemapError::Overflow
    }
}

/// `seeds` holds the interval `[start, start + length)` of each pair.
pub open spec fn seeds_of(pairs: Seq<(i64, i64)>, seeds: Seq<Interval>) -> bool {
    &&& seeds.len() == pairs.len()
    &&& forall|i: int|
        0 <= i < pairs.len() ==> #[trigger] seeds[i].wf() && seeds[i].lo() == pairs[i].0
            && seeds[i].hi() == pairs[i].0 + pairs[i].1
}

/// The pair at `i` is the first bad one, and `e` is its error.
pub open spec fn first_bad_pair(pairs: Seq<(i64, i64)>, i: int, e: RemapError) -> bool {
    &&& 0 <= i < pairs.len()
    &&& !pair_ok(pairs[i])
    &&& forall|j: int| 0 <= j < i ==> pair_ok(#[trigger] pairs[j])
    &&& e == pair_error(pairs[i])
}

/// The seed intervals of the `(start, length)` pairs.
pub fn seed_intervals(pairs: &Vec<(i64, i64)>) -> (r: Result<Vec<Interval>, RemapError>)
    ensures
        r matches Ok(v) ==> seeds_of(pairs@, v@),
        r is Ok <==> forall|i: int| 0 <= i < pairs@.len() ==> pair_ok(#[trigger] pairs@[i]),
        r matches Err(e) ==> exists|i: int| first_bad_pair(pairs@, i, e),
{
    let mut out: Vec<Interval> = Vec::new();
    let mut k: usize = 0;
    while k < pairs.len()
        invariant
            k <= pairs@.len(),
            out@.len() == k,
            forall|i: int| 0 <= i < k ==> pair_ok(#[trigger] pairs@[i]),
            forall|i: int|
                0 <= i < k ==> #[trigger] out@[i].wf() && out@[i].lo() == pairs@[i].0 && out@[i].hi()
                    == pairs@[i].0 + pairs@[i].1,
        decreases pairs@.len() - k,
    {
        let p = pairs[k];
        if p.1 <= 0 {
            assert(first_bad_pair(pairs@, k as int, RemapError::MalformedInterval));
            return Err(RemapError::MalformedInterval);
        }
        match p.0.checked_add(p.1) {
            Some(end) => {
                let i = Interval::new(p.0..end)?;
                out.push(i);
            },
            None => {
                assert(first_bad_pair(pairs@, k as int, RemapError::Overflow));
                return Err(RemapError::Overflow);
            },
        }
        k += 1;
    }
    Ok(out)
}

/// The records of every stage, as sequences.
pub open spec fn tables(maps: Seq<AlmanacMap>) -> Seq<Seq<(i64, i64, i64)>> {
    maps.map_values(|m: AlmanacMap| m.mappings@)
}

/// Where the first `n` stages send `v`.
pub open spec fn through(ts: Seq<Seq<(i64, i64, i64)>>, n: int, v: int) -> int
    decreases n,
{
    if n <= 0 {
        v
    } else {
        map_value(ts[n - 1], through(ts, n - 1, v))
    }
}

/// After each of the first `n` stages, `v` is still within `i64`.
pub open spec fn stays_in_i64(ts: Seq<Seq<(i64, i64, i64)>>, n: int, v: int) -> bool {
    forall|k: int| 1 <= k <= n ==> in_i64(#[trigger] through(ts, k, v))
}

/// Sends `seed` through every stage in order.
pub fn locate(seed: i64, maps: &Vec<AlmanacMap>) -> (r: Result<i64, RemapError>)
    ensures
        r matches Ok(x) ==> x == through(tables(maps@), maps@.len() as int, seed as int),
        r is Ok <==> stays_in_i64(tables(maps@), maps@.len() as int, seed as int),
        r is Err ==> r == Err::<i64, RemapError>(RemapError::Overflow),
{
    let ghost ts = tables(maps@);
    let mut cur: i64 = seed;
    let mut k: usize = 0;
    while k < maps.len()
        invariant
            ts == tables(maps@),
            k <= maps@.len(),
            cur == through(ts, k as int, seed as int),
            stays_in_i64(ts, k as int, seed as int),
        decreases maps@.len() - k,
    {
        assert(ts[k as int] == maps@[k as int].mappings@);
        match maps[k].transform(cur) {
            Ok(x) => {
                cur = x;
            },
            Err(e) => {
                assert(!in_i64(through(ts, k + 1, seed as int)));
                return Err(e);
            },
        }
        k += 1;
    }
    Ok(cur)
}

/// The least location that a seed reaches through every stage.
pub fn lowest_seed_location(seeds: &Vec<i64>, maps: &Vec<AlmanacMap>) -> (r: Result<i64, RemapError>)
    ensures
        r matches Ok(m) ==> (exists|i: int|
            0 <= i < seeds@.len() && m == through(tables(maps@), maps@.len() as int, #[trigger] seeds@[i] as int))
            && forall|i: int|
            0 <= i < seeds@.len() ==> m <= through(tables(maps@), maps@.len() as int, #[trigger] seeds@[i] as int),
        r == Err::<i64, RemapError>(RemapError::NoIntervals) <==> seeds@.len() == 0,
        r == Err::<i64, RemapError>(RemapError::Overflow) <==> seeds@.len() > 0 && exists|i: int|
            0 <= i < seeds@.len() && !stays_in_i64(tables(maps@), maps@.len() as int, #[trigger] seeds@[i] as int),
        r is Err ==> r == Err::<i64, RemapError>(RemapError::Overflow) || r == Err::<
            i64,
            RemapError,
        >(RemapError::NoIntervals),
{
    let ghost ts = tables(maps@);
    let ghost n = maps@.len() as int;
    if seeds.len() == 0 {
        return Err(RemapError::NoIntervals);
    }
    let mut best: i64 = locate(seeds[0], maps)?;
    let mut i: usize = 1;
    while i < seeds.len()
        invariant
            ts == tables(maps@),
            n == maps@.len(),
            1 <= i <= seeds@.len(),
            exists|j: int| 0 <= j < i && best == through(ts, n, #[trigger] seeds@[j] as int),
            forall|j: int| 0 <= j < i ==> best <= through(ts, n, #[trigger] seeds@[j] as int),
            forall|j: int| 0 <= j < i ==> stays_in_i64(ts, n, #[trigger] seeds@[j] as int),
        decreases seeds@.len() - i,
    {
        let x = locate(seeds[i], maps)?;
        if x < best {
            best = x;
        }
        i += 1;
    }
    Ok(best)
}

/// The least location that any value of the seed ranges reaches, computed on whole
/// intervals.
pub fn lowest_location_of_ranges(pairs: &Vec<(i64, i64)>, maps: &Vec<AlmanacMap>) -> (r: Result<
    i64,
    RemapError,
>)
    ensures
        r matches Ok(m) ==> exists|seeds: Seq<Interval>, stages: Seq<Seq<(Interval, i64)>>, out: Seq<Interval>|
            #[trigger] seeds_of(pairs@, seeds) && stages.len() == maps@.len() && (forall|k: int|
                0 <= k < maps@.len() ==> rules_of(#[trigger] maps@[k].mappings@, stages[k]))
                && #[trigger] runs_to(seeds, stages, stages.len() as int, out) && is_min_start(out, m as int),
        r is Ok ==> (forall|i: int| 0 <= i < pairs@.len() ==> pair_ok(#[trigger] pairs@[i])) && (forall|k: int|
            0 <= k < maps@.len() ==> mappings_ok(#[trigger] maps@[k].mappings@)),
        r matches Err(e) ==> (exists|i: int| first_bad_pair(pairs@, i, e)) || (exists|k: int, i: int|
            0 <= k < maps@.len() && #[trigger] first_bad_mapping(maps@[k].mappings@, i, e))
            || e == RemapError::Overflow || e == RemapError::NoIntervals,
        pairs@.len() > 0 && (forall|i: int| 0 <= i < pairs@.len() ==> pair_ok(#[trigger] pairs@[i]))
            && (forall|k: int| 0 <= k < maps@.len() ==> mappings_ok(#[trigger] maps@[k].mappings@))
            && (forall|seeds: Seq<Interval>, stages: Seq<Seq<(Interval, i64)>>|
            #[trigger] seeds_of(pairs@, seeds) && stages.len() == maps@.len() && (forall|k: int|
                0 <= k < maps@.len() ==> rules_of(#[trigger] maps@[k].mappings@, stages[k]))
                ==> !#[trigger] run_overflows(seeds, stages)) ==> r is Ok,
{
    let seeds = seed_intervals(pairs)?;
    let stages = match almanac_rules(maps) {
        Ok(st) => st,
        Err(e) => {
            return Err(e);
        },
    };
    proof {
        assert forall|i: int| 0 <= i < seeds@.len() implies #[trigger] seeds@[i].wf() by {
            assert(seeds_of(pairs@, seeds@));
        }
    }
    let r = lowest_location(&seeds, &stages);
    proof {
        let sv = stage_views(stages@);
        assert forall|k: int| 0 <= k < maps@.len() implies rules_of(#[trigger] maps@[k].mappings@, sv[k]) by {
            assert(rules_of(maps@[k].mappings@, stages@[k]@));
        }
        assert(seeds_of(pairs@, seeds@));
        assert(sv.len() == maps@.len());
        if let Ok(m) = r {
            let out = choose|out: Seq<Interval>|
                #[trigger] runs_to(seeds@, sv, stages@.len() as int, out) && is_min_start(out, m as int);
            assert(seeds_of(pairs@, seeds@));
            assert(sv.len() == maps@.len());
            assert(runs_to(seeds@, sv, sv.len() as int, out));
        }
    }
    r
}

/// The offset of the first rule from index `k` on whose interval holds the value `v`;
/// zero where there is none.
pub open spec fn value_offset_from(rs: Seq<(Interval, i64)>, k: int, v: int) -> int
    decreases rs.len() - k,
{
    if 0 <= k < rs.len() {
        if rs[k].0.has(v) {
            rs[k].1 as int
        } else {
            value_offset_from(rs, k + 1, v)
        }
    } else {
        0
    }
}

/// A piece that lies inside or apart from every rule interval gets the offset of
/// any of its values.
proof fn lemma_piece_offset(rs: Seq<(Interval, i64)>, k: int, p: Interval, v: int)
    requires
        0 <= k,
        p.has(v),
        aligned_upto(p, rs, rs.len() as int),
    ensures
        offset_from(rs, k, p) == value_offset_from(rs, k, v),
    decreases rs.len() - k,
{
    if k < rs.len() {
        assert(p.inside(rs[k].0) || p.apart(rs[k].0));
        lemma_piece_offset(rs, k + 1, p, v);
    }
}

/// The records and their rules send each value to the same place.
proof fn lemma_record_offsets(ms: Seq<(i64, i64, i64)>, rs: Seq<(Interval, i64)>, k: int, v: int)
    requires
        0 <= k,
        rules_of(ms, rs),
    ensures
        value_from(ms, k, v) == v + value_offset_from(rs, k, v),
    decreases ms.len() - k,
{
    if k < ms.len() {
        assert(rule_of(rs[k], ms[k]));
        lemma_record_offsets(ms, rs, k + 1, v);
    }
}

/// A stage applied to whole intervals agrees with the stage applied value by value:
/// every value of the working set is sent to a value of the result, and every
/// value of the result is where some value of the working set was sent.
pub proof fn lemma_stage_follows_values(
    ms: Seq<(i64, i64, i64)>,
    rs: Seq<(Interval, i64)>,
    ws: Seq<Interval>,
    out: Seq<Interval>,
)
    requires
        rules_of(ms, rs),
        stage_result(ws, rs, out),
    ensures
        forall|v: int| covers(ws, v) ==> covers(out, #[trigger] map_value(ms, v)),
        forall|u: int|
            covers(out, u) ==> exists|v: int| covers(ws, v) && #[trigger] map_value(ms, v) == u,
{
    let pieces = choose|pieces: Seq<Interval>|
        #[trigger] is_stage_split(pieces, ws, rs) && shifted_all(pieces, rs, out);
    assert forall|v: int| covers(ws, v) implies covers(out, #[trigger] map_value(ms, v)) by {
        assert(covers(pieces, v));
        let i = choose|i: int| 0 <= i < pieces.len() && #[trigger] pieces[i].has(v);
        lemma_piece_offset(rs, 0, pieces[i], v);
        lemma_record_offsets(ms, rs, 0, v);
        assert(pieces[i].moved(out[i], offset_of(rs, pieces[i])));
        assert(out[i].has(map_value(ms, v)));
    }
    assert forall|u: int| covers(out, u) implies exists|v: int|
        covers(ws, v) && #[trigger] map_value(ms, v) == u by {
        let i = choose|i: int| 0 <= i < out.len() && #[trigger] out[i].has(u);
        assert(pieces[i].moved(out[i], offset_of(rs, pieces[i])));
        let v = u - offset_of(rs, pieces[i]);
        assert(pieces[i].has(v));
        assert(covers(pieces, v));
        lemma_piece_offset(rs, 0, pieces[i], v);
        lemma_record_offsets(ms, rs, 0, v);
        assert(map_value(ms, v) == u);
    }
}

} // verus!
