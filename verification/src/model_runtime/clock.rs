//! The clock ranges observed per session: for each session id, the times
//! seen so far as sorted, disjoint, non-adjacent closed intervals.

use vstd::prelude::*;
use std::collections::HashMap;
use vstd::std_specs::iter::IteratorSpec;

verus! {

/// Whether `t` lies in one of the intervals.
pub open spec fn covered(rs: Seq<(u64, u64)>, t: int) -> bool {
    exists|i: int| #![trigger rs[i]] 0 <= i < rs.len() && rs[i].0 <= t <= rs[i].1
}

/// The intervals are non-empty, in increasing order, and no two of them
/// touch or overlap.
pub open spec fn canonical(rs: Seq<(u64, u64)>) -> bool {
    &&& forall|i: int| 0 <= i < rs.len() ==> rs[i].0 <= rs[i].1
    &&& forall|i: int, j: int| 0 <= i < j < rs.len() ==> rs[i].1 + 1 < rs[j].0
}

/// The intervals are non-empty and their starts do not decrease.
spec fn sorted_ranges(rs: Seq<(u64, u64)>) -> bool {
    &&& forall|i: int| 0 <= i < rs.len() ==> rs[i].0 <= rs[i].1
    &&& forall|i: int, j: int| 0 <= i <= j < rs.len() ==> rs[i].0 <= rs[j].0
}

/// The last time of a run of `span` ticks from `start` (a run of none counts
/// as its start).
pub open spec fn span_end(start: u64, span: u64) -> int {
    if span == 0 {
        start as int
    } else {
        start + span - 1
    }
}

/// Observed clock ranges by session id.
#[derive(Debug)]
pub struct ClockState {
    pub observed: HashMap<u64, Vec<(u64, u64)>>,
}

impl ClockState {
    /// Every session's intervals are canonical.
    pub open spec fn wf(&self) -> bool {
        forall|sid: u64| #[trigger] self.observed@.contains_key(sid) ==> canonical(self.observed@[sid]@)
    }

    /// No range observed.
    pub fn new() -> (res: ClockState)
        ensures
            res.observed@ == Map::<u64, Vec<(u64, u64)>>::empty(),
            res.wf(),
    {
        ClockState { observed: HashMap::new() }
    }

    /// Records that session `sid` used the `span` times from `start`: its
    /// intervals stay canonical and cover what they covered and those times.
    #[verifier::rlimit(30)]
    #[verifier::spinoff_prover]
    pub fn observe(&mut self, sid: u64, start: u64, span: u64)
        requires
            old(self).wf(),
            span_end(start, span) <= u64::MAX,
        ensures
            final(self).wf(),
            final(self).observed@.dom() == old(self).observed@.dom().insert(sid),
            forall|s: u64| s != sid && #[trigger] old(self).observed@.contains_key(s)
                ==> final(self).observed@[s] == old(self).observed@[s],
            forall|t: int| #[trigger] covered(final(self).observed@[sid]@, t) <==> ((old(
                self,
            ).observed@.contains_key(sid) && covered(old(self).observed@[sid]@, t)) || (start <= t
                <= span_end(start, span))),
    {
        let end: u64 = if span == 0 { start } else { start + (span - 1) };
        let ghost before = old(self).observed@;
        let ranges: Vec<(u64, u64)> = match self.observed.remove(&sid) {
            Some(v) => v,
            None => Vec::new(),
        };
        let ghost old_rs: Seq<(u64, u64)> = if before.contains_key(sid) {
            before[sid]@
        } else {
            Seq::empty()
        };
        assert(ranges@ == old_rs);
        assert(canonical(old_rs));
        // Stable placement of the new interval after those that start no later.
        let mut pos: usize = 0;
        while pos < ranges.len() && ranges[pos].0 <= start
            invariant
                pos <= ranges@.len(),
                ranges@ == old_rs,
                forall|j: int| 0 <= j < pos ==> ranges@[j].0 <= start,
            decreases ranges.len() - pos,
        {
            pos = pos + 1;
        }
        let mut sorted: Vec<(u64, u64)> = Vec::new();
        let mut k: usize = 0;
        while k < ranges.len()
            invariant
                k <= ranges@.len(),
                pos <= ranges@.len(),
                ranges@ == old_rs,
                sorted@ =~= if k <= pos {
                    old_rs.take(k as int)
                } else {
                    old_rs.take(pos as int).push((start, end)) + old_rs.subrange(pos as int, k as int)
                },
            decreases ranges.len() - k,
        {
            if k == pos {
                sorted.push((start, end));
            }
            sorted.push(ranges[k]);
            k = k + 1;
        }
        if pos == ranges.len() {
            sorted.push((start, end));
        }
        let ghost input = old_rs.take(pos as int).push((start, end)) + old_rs.skip(pos as int);
        assert(sorted@ =~= input);
        proof {
            assert forall|t: int| covered(input, t) <==> (covered(old_rs, t) || (start <= t <= end)) by {
                if covered(input, t) {
                    let i = choose|i: int| #![trigger input[i]] 0 <= i < input.len() && input[i].0 <= t <= input[i].1;
                    if i < pos {
                        assert(input[i] == old_rs[i]);
                    } else if i > pos {
                        assert(input[i] == old_rs[i - 1]);
                    }
                }
                if covered(old_rs, t) {
                    let i = choose|i: int| #![trigger old_rs[i]] 0 <= i < old_rs.len() && old_rs[i].0 <= t <= old_rs[i].1;
                    if i < pos {
                        assert(input[i] == old_rs[i]);
                    } else {
                        assert(input[i + 1] == old_rs[i]);
                    }
                }
                if start <= t <= end {
                    assert(input[pos as int] == (start, end));
                }
            }
            assert(sorted_ranges(input)) by {
                assert forall|i: int, j: int| 0 <= i <= j < input.len() implies input[i].0 <= input[j].0 by {
                    if i < pos && j < pos {
                        assert(input[i] == old_rs[i] && input[j] == old_rs[j]);
                    } else if i < pos && j == pos {
                        assert(input[i] == old_rs[i]);
                    } else if i < pos {
                        assert(input[i] == old_rs[i] && input[j] == old_rs[j - 1]);
                    } else if i == pos && j > pos {
                        assert(input[j] == old_rs[j - 1]);
                        assert(!(old_rs[pos as int].0 <= start));
                    } else if i > pos {
                        assert(input[i] == old_rs[i - 1] && input[j] == old_rs[j - 1]);
                    }
                }
                assert forall|i: int| 0 <= i < input.len() implies input[i].0 <= input[i].1 by {
                    if i < pos {
                        assert(input[i] == old_rs[i]);
                    } else if i > pos {
                        assert(input[i] == old_rs[i - 1]);
                    }
                }
            }
        }
        let merged = merge_ranges(&sorted);
        self.observed.insert(sid, merged);
        proof {
            assert forall|s: u64| #[trigger] self.observed@.contains_key(s) implies canonical(self.observed@[s]@) by {
                if s != sid {
                    assert(before.contains_key(s));
                }
            }
            assert(self.observed@.dom() =~= before.dom().insert(sid));
        }
    }
}

/// Session `sid` has an observed interval ending at `end`.
pub open spec fn has_end(obs: Map<u64, Vec<(u64, u64)>>, sid: u64, end: u64) -> bool {
    obs.contains_key(sid) && exists|i: int| 0 <= i < obs[sid]@.len() && #[trigger] obs[sid]@[i].1 == end
}

impl ClockState {
    /// The session and last time of every observed interval, in no
    /// particular order.
    pub fn ends(&self) -> (res: Vec<(u64, u64)>)
        ensures
            forall|sid: u64, end: u64| #[trigger] res@.contains((sid, end)) <==> has_end(self.observed@, sid, end),
    {
        broadcast use vstd::std_specs::hash::group_hash_axioms;
        let mut out: Vec<(u64, u64)> = Vec::new();
        let m = &self.observed;
        for pair in it: m.iter()
            invariant
                it.seq() == vstd::std_specs::hash::spec_hash_map_iter(m).remaining(),
                forall|sid: u64, end: u64| #[trigger] out@.contains((sid, end)) <==> exists|k: int|
                    0 <= k < it.index() && *it.seq()[k].0 == sid && exists|j: int|
                        0 <= j < it.seq()[k].1@.len() && #[trigger] it.seq()[k].1@[j].1 == end,
        {
            let (sid, ranges) = pair;
            let ghost before = out@;
            let ghost k0 = it.index();
            let mut j: usize = 0;
            while j < ranges.len()
                invariant
                    j <= ranges.len(),
                    forall|s: u64, e: u64| #[trigger] out@.contains((s, e)) <==> (before.contains((s, e)) || (s == *sid
                        && exists|jj: int| 0 <= jj < j && ranges@[jj].1 == e)),
                decreases ranges.len() - j,
            {
                let ghost prev = out@;
                out.push((*sid, ranges[j].1));
                proof {
                    assert forall|s: u64, e: u64| #[trigger] out@.contains((s, e)) <==> (prev.contains((s, e)) || (s
                        == *sid && e == ranges@[j as int].1)) by {
                        if out@.contains((s, e)) {
                            let q = choose|q: int| 0 <= q < out@.len() && out@[q] == (s, e);
                            if q < prev.len() {
                                assert(prev[q] == (s, e));
                            }
                        }
                        if prev.contains((s, e)) {
                            let q = choose|q: int| 0 <= q < prev.len() && prev[q] == (s, e);
                            assert(out@[q] == (s, e));
                        }
                        if s == *sid && e == ranges@[j as int].1 {
                            assert(out@[prev.len() as int] == (s, e));
                        }
                    }
                }
                j = j + 1;
            }
        }
        proof {
            let v = vstd::std_specs::hash::spec_hash_map_iter(m).remaining();
            assert forall|sid: u64, end: u64| #[trigger] out@.contains((sid, end)) <==> has_end(self.observed@, sid, end) by {
                if out@.contains((sid, end)) {
                    let k = choose|k: int| 0 <= k < v.len() && *v[k].0 == sid && exists|j: int|
                        0 <= j < v[k].1@.len() && #[trigger] v[k].1@[j].1 == end;
                    assert(self.observed@.contains_key(*v[k].0) && self.observed@[*v[k].0] == *v[k].1);
                }
                if has_end(self.observed@, sid, end) {
                    assert(v.contains((&sid, &self.observed@[sid])));
                    let k = choose|k: int| 0 <= k < v.len() && v[k] == (&sid, &self.observed@[sid]);
                    let j = choose|j: int| 0 <= j < self.observed@[sid]@.len() && #[trigger] self.observed@[sid]@[j].1 == end;
                    assert(v[k].1@[j].1 == end);
                }
            }
        }
        out
    }
}

/// Merges sorted intervals into canonical ones that cover the same times.
fn merge_ranges(rs: &Vec<(u64, u64)>) -> (res: Vec<(u64, u64)>)
    requires
        sorted_ranges(rs@),
    ensures
        canonical(res@),
        forall|t: int| covered(res@, t) <==> covered(rs@, t),
{
    let mut merged: Vec<(u64, u64)> = Vec::new();
    let mut i: usize = 0;
    while i < rs.len()
        invariant
            i <= rs@.len(),
            sorted_ranges(rs@),
            canonical(merged@),
            i > 0 ==> merged@.len() > 0 && merged@.last().0 <= rs@[i - 1].0,
            i == 0 ==> merged@.len() == 0,
            forall|t: int| covered(merged@, t) <==> covered(rs@.take(i as int), t),
        decreases rs.len() - i,
    {
        let (a, b) = rs[i];
        let ghost m0 = merged@;
        let n = merged.len();
        if n > 0 && a <= merged[n - 1].1.saturating_add(1) {
            let (l0, l1) = merged[n - 1];
            let hi = if l1 >= b { l1 } else { b };
            merged.set(n - 1, (l0, hi));
            proof {
                assert(l0 <= a) by {
                    assert(rs@[i - 1].0 <= rs@[i as int].0);
                }
                assert forall|t: int| covered(merged@, t) <==> covered(rs@.take(i + 1), t) by {
                    assert(rs@.take(i + 1) =~= rs@.take(i as int).push((a, b)));
                    if covered(merged@, t) {
                        let j = choose|j: int| #![trigger merged@[j]] 0 <= j < merged@.len() && merged@[j].0 <= t <= merged@[j].1;
                        if j < n - 1 {
                            assert(covered(m0, t));
                        } else if t <= l1 {
                            assert(covered(m0, t));
                        } else {
                            assert(rs@.take(i + 1)[i as int] == (a, b));
                        }
                    }
                    if covered(rs@.take(i + 1), t) {
                        let j = choose|j: int| #![trigger rs@.take(i + 1)[j]] 0 <= j < rs@.take(i + 1).len() && rs@.take(i + 1)[j].0 <= t <= rs@.take(i + 1)[j].1;
                        if j < i {
                            assert(rs@.take(i as int)[j] == rs@.take(i + 1)[j]);
                            assert(covered(rs@.take(i as int), t));
                            assert(covered(m0, t));
                            let q = choose|q: int| #![trigger m0[q]] 0 <= q < m0.len() && m0[q].0 <= t <= m0[q].1;
                            assert(merged@[q].0 <= t <= merged@[q].1);
                        } else {
                            assert(merged@[n - 1].0 <= t <= merged@[n - 1].1);
                        }
                    }
                }
                assert forall|p: int, q: int| #![trigger merged@[p], merged@[q]] 0 <= p < q < merged@.len() implies merged@[p].1 + 1 < merged@[q].0 by {
                    assert(merged@[p] == m0[p]);
                }
            }
        } else {
            merged.push((a, b));
            proof {
                assert forall|t: int| covered(merged@, t) <==> covered(rs@.take(i + 1), t) by {
                    assert(rs@.take(i + 1) =~= rs@.take(i as int).push((a, b)));
                    if covered(merged@, t) {
                        let j = choose|j: int| #![trigger merged@[j]] 0 <= j < merged@.len() && merged@[j].0 <= t <= merged@[j].1;
                        if j < n {
                            assert(covered(m0, t));
                        } else {
                            assert(rs@.take(i + 1)[i as int] == (a, b));
                        }
                    }
                    if covered(rs@.take(i + 1), t) {
                        let j = choose|j: int| #![trigger rs@.take(i + 1)[j]] 0 <= j < rs@.take(i + 1).len() && rs@.take(i + 1)[j].0 <= t <= rs@.take(i + 1)[j].1;
                        if j < i {
                            assert(rs@.take(i as int)[j] == rs@.take(i + 1)[j]);
                            assert(covered(rs@.take(i as int), t));
                            assert(covered(m0, t));
                            let q = choose|q: int| #![trigger m0[q]] 0 <= q < m0.len() && m0[q].0 <= t <= m0[q].1;
                            assert(merged@[q] == m0[q]);
                            assert(merged@[q].0 <= t <= merged@[q].1);
                        } else {
                            assert(merged@[n as int] == (a, b));
                        }
                    }
                }
                assert forall|p: int, q: int| #![trigger merged@[p], merged@[q]] 0 <= p < q < merged@.len() implies merged@[p].1 + 1 < merged@[q].0 by {
                    if q == n {
                        assert(merged@[p] == m0[p]);
                        if p < n - 1 {
                            assert(m0[p].1 + 1 < m0[n - 1].0);
                        }
                    } else {
                        assert(merged@[p] == m0[p] && merged@[q] == m0[q]);
                    }
                }
            }
        }
        i = i + 1;
    }
    assert(rs@.take(rs@.len() as int) =~= rs@);
    merged
}

} // verus!
