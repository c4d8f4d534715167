//! Joining consecutive patches of one session into one patch, and merging
//! the text insertions of a patch that continue each other.

use vstd::prelude::*;
use vstd::string::StringExecFns;
use crate::patch::{spec_op_span, DecodedOp, OpView, Patch, PatchError, Timestamp};
use crate::patch_builder::{encode_patch_from_ops, ops_view, patch_reads_back, sat_add, spec_encode_patch, PatchBuildError};
use crate::text::{utf16_of, utf16_units};

verus! {

/// Failures of joining or compacting patches.
#[derive(Debug, Clone, PartialEq, Eq)]
pub enum CompactionError {
    SidMismatch,
    TimestampConflict,
    Build(PatchBuildError),
    Decode(PatchError),
}

/// The outcome of building a patch of session `sid` starting at `time` from
/// the operations and decoding its bytes.
pub open spec fn built_from(sid: u64, time: u64, ops: Seq<OpView>, res: Result<Patch, CompactionError>) -> bool {
    &&& match spec_encode_patch(sid, time, ops) {
        Err(e) => res == Err::<Patch, CompactionError>(CompactionError::Build(e)),
        Ok(bytes) => match res {
            Ok(p) => Patch::from_binary_outcome(bytes, Ok(p)),
            Err(CompactionError::Decode(e)) => Patch::from_binary_outcome(bytes, Err(e)),
            Err(_) => false,
        },
    }
    &&& patch_reads_back(sid, time, ops) ==> (res matches Ok(p) && p.spec_sid() == sid && p.spec_time() == time
        && ops_view(p.spec_ops()) == ops)
}

/// Builds a patch from operations and decodes its bytes.
fn patch_from_ops(sid: u64, time: u64, ops: &[DecodedOp]) -> (res: Result<Patch, CompactionError>)
    ensures
        built_from(sid, time, ops_view(ops@), res),
{
    proof {
        if patch_reads_back(sid, time, ops_view(ops@)) {
            crate::patch_builder::lemma_reads_back_encodes(sid, time, ops_view(ops@));
        }
    }
    let bytes = match encode_patch_from_ops(sid, time, ops) {
        Ok(b) => b,
        Err(e) => return Err(CompactionError::Build(e)),
    };
    match Patch::from_binary(bytes.as_slice()) {
        Ok(p) => Ok(p),
        Err(e) => Err(CompactionError::Decode(e)),
    }
}

/// The sum of the operations' spans.
pub open spec fn span_sum(ops: Seq<OpView>) -> int
    decreases ops.len(),
{
    if ops.len() == 0 {
        0
    } else {
        span_sum(ops.drop_last()) + spec_op_span(ops.last())
    }
}

proof fn lemma_span_sum_prefix(ops: Seq<OpView>, i: int)
    requires
        0 <= i <= ops.len(),
    ensures
        span_sum(ops.take(i)) <= span_sum(ops),
    decreases ops.len() - i,
{
    if i < ops.len() {
        lemma_span_sum_prefix(ops, i + 1);
        assert(ops.take(i + 1).drop_last() =~= ops.take(i));
    } else {
        assert(ops.take(i) =~= ops);
    }
}

/// The sum of the operations' spans, when it fits in 64 bits.
fn span_total(ops: &Vec<DecodedOp>) -> (res: Option<u64>)
    ensures
        match res {
            Some(n) => n == span_sum(ops_view(ops@)),
            None => span_sum(ops_view(ops@)) > u64::MAX,
        },
{
    let ghost v = ops_view(ops@);
    let mut total: u64 = 0;
    let mut i: usize = 0;
    assert(v.take(0) =~= Seq::<OpView>::empty());
    while i < ops.len()
        invariant
            i <= ops.len(),
            v == ops_view(ops@),
            total == span_sum(v.take(i as int)),
        decreases ops.len() - i,
    {
        let s = ops[i].span();
        assert(v.take(i + 1).drop_last() =~= v.take(i as int));
        match total.checked_add(s) {
            Some(t) => {
                total = t;
            },
            None => {
                proof {
                    lemma_span_sum_prefix(v, i + 1);
                }
                return None;
            },
        }
        i = i + 1;
    }
    assert(v.take(v.len() as int) =~= v);
    Some(total)
}

/// The session and time of a patch's first operation, when it has one.
pub open spec fn patch_id(p: Patch) -> Option<(u64, u64)> {
    if p.spec_op_count() == 0 {
        None
    } else {
        Some((p.spec_sid(), p.spec_time()))
    }
}

/// How joining patches ends: with a copy of one of them, a patch built from
/// operations, a failure, or (where the sum of spans would not fit in 64
/// bits) nowhere.
pub enum CombineEnd {
    Copy(int),
    Build(u64, u64, Seq<OpView>),
    Fail(CompactionError),
    Overflow,
}

/// Joining from the patch at `i` on, with `ops` gathered from those before.
pub open spec fn combine_from(patches: Seq<Patch>, i: int, sid_time: Option<(u64, u64)>, ops: Seq<OpView>) -> CombineEnd
    decreases patches.len() - i,
{
    if i < 1 || i >= patches.len() {
        match sid_time {
            Some((s, t)) => CombineEnd::Build(s, t, ops),
            None => CombineEnd::Build(0, 0, Seq::empty()),
        }
    } else {
        match (sid_time, patch_id(patches[i])) {
            (None, None) => CombineEnd::Copy(0),
            (None, Some(_)) => CombineEnd::Copy(i),
            (Some((s, t)), None) => CombineEnd::Build(s, t, ops),
            (Some((sa, ta)), Some((sb, tb))) => if sa != sb {
                CombineEnd::Fail(CompactionError::SidMismatch)
            } else if span_sum(ops) > u64::MAX {
                CombineEnd::Overflow
            } else {
                let next = sat_add(ta, span_sum(ops) as u64);
                if tb < next {
                    CombineEnd::Fail(CompactionError::TimestampConflict)
                } else {
                    let gap = if tb > next {
                        seq![OpView::Nop { id: Timestamp { sid: sa, time: next }, len: (tb - next) as u64 }]
                    } else {
                        Seq::empty()
                    };
                    combine_from(patches, i + 1, Some((sa, ta)), ops + gap + ops_view(patches[i].spec_ops()))
                }
            },
        }
    }
}

/// How joining the patches ends.
pub open spec fn spec_combine(patches: Seq<Patch>) -> CombineEnd {
    if patches.len() == 0 {
        CombineEnd::Build(0, 0, Seq::empty())
    } else {
        combine_from(patches, 1, patch_id(patches[0]), ops_view(patches[0].spec_ops()))
    }
}

/// Appends copies of the operations.
fn extend_ops(ops: &mut Vec<DecodedOp>, more: &[DecodedOp])
    ensures
        ops_view(final(ops)@) == ops_view(old(ops)@) + ops_view(more@),
{
    let ghost start = ops_view(ops@);
    let mut i: usize = 0;
    while i < more.len()
        invariant
            i <= more.len(),
            ops_view(ops@) == start + ops_view(more@).take(i as int),
        decreases more.len() - i,
    {
        let ghost before = ops@;
        ops.push(more[i].deep_clone());
        proof {
            assert(ops_view(ops@) =~= ops_view(before).push(more@[i as int].op_view()));
            assert(ops_view(more@).take(i + 1) =~= ops_view(more@).take(i as int).push(more@[i as int].op_view()));
        }
        i = i + 1;
    }
    assert(ops_view(more@).take(more@.len() as int) =~= ops_view(more@));
}

/// Joins patches of one session into one: each next patch must start at or
/// after the tick that follows the ones before, a gap being filled with a
/// no-op. A first patch without operations is returned as it is (or the
/// second one, when that has operations); a later one without operations
/// ends the joining.
pub fn combine_patches(patches: &[Patch]) -> (res: Result<Patch, CompactionError>)
    requires
        !(spec_combine(patches@) is Overflow),
    ensures
        match spec_combine(patches@) {
            CombineEnd::Copy(k) => 0 <= k < patches@.len() && (res matches Ok(p) && p.same_as(patches@[k])),
            CombineEnd::Build(s, t, ops) => built_from(s, t, ops, res),
            CombineEnd::Fail(e) => res == Err::<Patch, CompactionError>(e),
            CombineEnd::Overflow => false,
        },
{
    if patches.len() == 0 {
        let empty: Vec<DecodedOp> = Vec::new();
        assert(ops_view(empty@) =~= Seq::<OpView>::empty());
        return patch_from_ops(0, 0, empty.as_slice());
    }
    let first = &patches[0];
    let first_id = first.id();
    let mut ops: Vec<DecodedOp> = Vec::new();
    extend_ops(&mut ops, first.decoded_ops());
    assert(ops_view(ops@) =~= ops_view(first.spec_ops()));
    let sid_time = first_id;
    let mut i: usize = 1;
    while i < patches.len()
        invariant
            1 <= i <= patches.len(),
            *first == patches@[0],
            sid_time == patch_id(patches@[0]),
            spec_combine(patches@) == combine_from(patches@, i as int, sid_time, ops_view(ops@)),
            !(spec_combine(patches@) is Overflow),
        decreases patches.len() - i,
    {
        let current = &patches[i];
        let current_id = current.id();
        match (sid_time, current_id) {
            (None, None) => {
                return Ok(first.deep_clone());
            },
            (None, Some(_)) => {
                return Ok(current.deep_clone());
            },
            (Some((sid, time)), None) => {
                return patch_from_ops(sid, time, ops.as_slice());
            },
            (Some((sid_a, time_a)), Some((sid_b, time_b))) => {
                if sid_a != sid_b {
                    return Err(CompactionError::SidMismatch);
                }
                let total = match span_total(&ops) {
                    Some(t) => t,
                    None => {
                        assert(false);
                        return Err(CompactionError::TimestampConflict);
                    },
                };
                let next_tick = time_a.saturating_add(total);
                if time_b < next_tick {
                    return Err(CompactionError::TimestampConflict);
                }
                let ghost before = ops_view(ops@);
                if time_b > next_tick {
                    ops.push(DecodedOp::Nop { id: Timestamp { sid: sid_a, time: next_tick }, len: time_b - next_tick });
                }
                let ghost mid = ops_view(ops@);
                proof {
                    if time_b > next_tick {
                        assert(mid =~= before + seq![
                            OpView::Nop { id: Timestamp { sid: sid_a, time: next_tick }, len: (time_b - next_tick) as u64 },
                        ]);
                    } else {
                        assert(mid =~= before + Seq::<OpView>::empty());
                    }
                }
                extend_ops(&mut ops, current.decoded_ops());
            },
        }
        i = i + 1;
    }
    match first_id {
        Some((sid, time)) => patch_from_ops(sid, time, ops.as_slice()),
        None => {
            let empty: Vec<DecodedOp> = Vec::new();
            assert(ops_view(empty@) =~= Seq::<OpView>::empty());
            patch_from_ops(0, 0, empty.as_slice())
        },
    }
}

/// The insertion that a text insertion and the next one merge into, when
/// the next one continues it: it comes at the tick after the first one's
/// UTF-16 units, into the same node, right after the first one's last
/// character, with a reference of the same session.
pub open spec fn str_merge(last: OpView, op: OpView) -> Option<OpView> {
    match (last, op) {
        (
            OpView::InsStr { id: li, obj: lo, reference: lr, data: ld },
            OpView::InsStr { id, obj, reference, data },
        ) => {
            let next = sat_add(li.time, utf16_of(ld).len() as u64);
            if next == id.time && lo == obj && next == sat_add(reference.time, 1) && lr.sid == reference.sid {
                Some(OpView::InsStr { id: li, obj: lo, reference: lr, data: ld + data })
            } else {
                None
            }
        },
        _ => None,
    }
}

/// The operations with each text insertion that continues the one before it
/// merged into it.
pub open spec fn compact_ops(ops: Seq<OpView>) -> Seq<OpView>
    decreases ops.len(),
{
    if ops.len() == 0 {
        Seq::empty()
    } else {
        let acc = compact_ops(ops.drop_last());
        if acc.len() > 0 && str_merge(acc.last(), ops.last()) is Some {
            acc.drop_last().push(str_merge(acc.last(), ops.last())->0)
        } else {
            acc.push(ops.last())
        }
    }
}

/// The merge of a text insertion with the next one, when it continues it.
fn merge_str(last: &DecodedOp, op: &DecodedOp) -> (res: Option<DecodedOp>)
    ensures
        match res {
            Some(m) => str_merge(last.op_view(), op.op_view()) == Some(m.op_view()),
            None => str_merge(last.op_view(), op.op_view()) is None,
        },
{
    match (last, op) {
        (
            DecodedOp::InsStr { id: last_id, obj: last_obj, reference: last_ref, data: last_data },
            DecodedOp::InsStr { id, obj, reference, data },
        ) => {
            let units = utf16_units(last_data.as_str()).len() as u64;
            let last_next_tick = last_id.time.saturating_add(units);
            let is_time_consecutive = last_next_tick == id.time;
            let same_obj = last_obj.sid == obj.sid && last_obj.time == obj.time;
            let is_append = last_next_tick == reference.time.saturating_add(1) && last_ref.sid == reference.sid;
            if is_time_consecutive && same_obj && is_append {
                let mut merged = last_data.clone();
                merged.append(data.as_str());
                Some(DecodedOp::InsStr { id: *last_id, obj: *last_obj, reference: *last_ref, data: merged })
            } else {
                None
            }
        },
        _ => None,
    }
}

/// Compacts a patch: each text insertion that continues the one before it
/// is merged into it. A patch without operations is returned as it is.
pub fn compact_patch(patch: &Patch) -> (res: Result<Patch, CompactionError>)
    ensures
        patch.spec_ops().len() == 0 ==> (res matches Ok(p) && p.same_as(*patch)),
        patch.spec_ops().len() > 0 ==> ({
            let (sid, time) = match patch_id(*patch) {
                Some(id) => id,
                None => (0u64, 0u64),
            };
            built_from(sid, time, compact_ops(ops_view(patch.spec_ops())), res)
        }),
{
    let ops = patch.decoded_ops();
    if ops.len() == 0 {
        return Ok(patch.deep_clone());
    }
    let ghost v = ops_view(ops@);
    let mut new_ops: Vec<DecodedOp> = Vec::new();
    new_ops.push(ops[0].deep_clone());
    proof {
        assert(v.take(1).drop_last() =~= Seq::<OpView>::empty());
        assert(compact_ops(v.take(1).drop_last()) == Seq::<OpView>::empty());
        assert(v.take(1).last() == v[0]);
        assert(ops_view(new_ops@) =~= compact_ops(v.take(1)));
    }
    let mut i: usize = 1;
    while i < ops.len()
        invariant
            1 <= i <= ops.len(),
            v == ops_view(ops@),
            ops_view(new_ops@) == compact_ops(v.take(i as int)),
            new_ops@.len() > 0,
        decreases ops.len() - i,
    {
        let ghost acc = ops_view(new_ops@);
        assert(v.take(i + 1).drop_last() =~= v.take(i as int));
        assert(v.take(i + 1).last() == v[i as int]);
        let last = new_ops.len() - 1;
        assert(acc.last() == new_ops@[last as int].op_view());
        match merge_str(&new_ops[last], &ops[i]) {
            Some(m) => {
                new_ops.set(last, m);
                assert(ops_view(new_ops@) =~= acc.drop_last().push(m.op_view()));
            },
            None => {
                new_ops.push(ops[i].deep_clone());
                assert(ops_view(new_ops@) =~= acc.push(v[i as int]));
            },
        }
        i = i + 1;
    }
    assert(v.take(v.len() as int) =~= v);
    let (sid, time) = match patch.id() {
        Some(id) => id,
        None => (0, 0),
    };
    patch_from_ops(sid, time, new_ops.as_slice())
}

/// Every text insertion's length fits the clock.
pub open spec fn texts_fit(ops: Seq<OpView>) -> bool {
    forall|k: int|
        0 <= k < ops.len() ==> match #[trigger] ops[k] {
            OpView::InsStr { data, .. } => data.len() <= u64::MAX,
            _ => true,
        }
}

proof fn lemma_compact_shape(ops: Seq<OpView>)
    requires
        texts_fit(ops),
    ensures
        texts_fit(compact_ops(ops)) || span_sum(ops) > u64::MAX,
        span_sum(ops) <= u64::MAX ==> span_sum(compact_ops(ops)) == span_sum(ops),
    decreases ops.len(),
{
    if ops.len() > 0 {
        let init = ops.drop_last();
        assert(texts_fit(init)) by {
            assert forall|k: int| 0 <= k < init.len() implies match #[trigger] init[k] {
                OpView::InsStr { data, .. } => data.len() <= u64::MAX,
                _ => true,
            } by {
                assert(init[k] == ops[k]);
            }
        }
        lemma_compact_shape(init);
        let acc = compact_ops(init);
        let op = ops.last();
        assert(texts_fit(seq![op])) by {
            assert(op == ops[ops.len() - 1]);
        }
        if acc.len() > 0 && str_merge(acc.last(), op) is Some {
            let m = str_merge(acc.last(), op)->0;
            assert(acc.drop_last().push(m).drop_last() =~= acc.drop_last());
            assert(acc.drop_last().push(acc.last()) =~= acc);
            if span_sum(ops) <= u64::MAX {
                assert(span_sum(acc) == span_sum(acc.drop_last()) + spec_op_span(acc.last()));
                assert(acc.last() is InsStr && op is InsStr);
                let ld = acc.last()->InsStr_data;
                let d = op->InsStr_data;
                assert(texts_fit(acc));
                assert(ld.len() <= u64::MAX) by {
                    assert(acc[acc.len() - 1] == acc.last());
                }
                assert(d.len() <= u64::MAX);
                assert(span_sum(init) >= 0) by {
                    lemma_span_sum_nonneg(init);
                }
                lemma_span_sum_nonneg(acc.drop_last());
                assert(ld.len() + d.len() <= u64::MAX);
                assert((ld + d).len() == ld.len() + d.len());
                assert(texts_fit(acc.drop_last().push(m))) by {
                    let r = acc.drop_last().push(m);
                    assert forall|k: int| 0 <= k < r.len() implies match #[trigger] r[k] {
                        OpView::InsStr { data, .. } => data.len() <= u64::MAX,
                        _ => true,
                    } by {
                        if k < r.len() - 1 {
                            assert(r[k] == acc[k]);
                        }
                    }
                }
            }
        } else {
            assert(acc.push(op).drop_last() =~= acc);
            assert(texts_fit(acc.push(op)) || span_sum(ops) > u64::MAX) by {
                if texts_fit(acc) {
                    let r = acc.push(op);
                    assert forall|k: int| 0 <= k < r.len() implies match #[trigger] r[k] {
                        OpView::InsStr { data, .. } => data.len() <= u64::MAX,
                        _ => true,
                    } by {
                        if k < r.len() - 1 {
                            assert(r[k] == acc[k]);
                        }
                    }
                }
            }
        }
    }
}

proof fn lemma_span_sum_nonneg(ops: Seq<OpView>)
    ensures
        span_sum(ops) >= 0,
    decreases ops.len(),
{
    if ops.len() > 0 {
        lemma_span_sum_nonneg(ops.drop_last());
    }
}

/// Law: compacting keeps the total span of the operations, where the texts
/// and the total fit the clock.
pub proof fn lemma_compact_keeps_span(ops: Seq<OpView>)
    requires
        texts_fit(ops),
        span_sum(ops) <= u64::MAX,
    ensures
        span_sum(compact_ops(ops)) == span_sum(ops),
{
    lemma_compact_shape(ops);
}

} // verus!
