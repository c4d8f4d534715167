//! Runtime model: the CRDT node graph and the application of patch operations.

pub mod types;
pub mod rga;
pub mod clock;
pub mod apply;
pub mod view;
pub mod decode;
pub mod bootstrap;
pub mod query;
pub mod encode;
pub mod reapply;

use vstd::prelude::*;
use crate::crdt_binary::LogicalClockBase;
use crate::json::{JsonValue, JsonView};
use crate::patch::{DecodedOp, Patch, Timestamp, spec_op_id, spec_op_span};
use self::apply::{apply_op_spec, op_fits};
use self::clock::{ClockState, covered, span_end};
use self::types::{RuntimeNode, NodeV, store_view};
use self::view::node_json;
use self::decode::{spec_decode_graph, store_agrees, decode_runtime_graph, GraphDec};
use self::bootstrap::{boot, bootstrap_graph_from_view};
use crate::crdt_binary::{first_logical_clock_sid_time, spec_parse_logical_clock_table};
use crate::model::{decode_model_view, view_result_ok, ModelError};

verus! {

/// Failures of patch application.
#[derive(Debug, Clone, PartialEq, Eq)]
pub enum ApplyError {
    UnsupportedOpForM3,
    InvariantViolation(String),
}

/// The graph part of a runtime model: its node store and its root.
pub struct GraphView {
    pub nodes: Seq<(Timestamp, NodeV)>,
    pub root: Option<Timestamp>,
}

/// A JSON CRDT document as a graph of nodes keyed by identifier, with the
/// clock ranges seen so far.
#[derive(Debug)]
pub struct RuntimeModel {
    nodes: Vec<(Timestamp, RuntimeNode)>,
    root: Option<Timestamp>,
    clock: ClockState,
    fallback_view: JsonValue,
    infer_empty_object_root: bool,
    clock_table: Vec<LogicalClockBase>,
    server_clock_time: Option<u64>,
}

/// The effect of the operations, in order, on the graph.
pub open spec fn apply_ops_spec(g: GraphView, infer: bool, ops: Seq<DecodedOp>) -> GraphView
    decreases ops.len(),
{
    if ops.len() == 0 {
        g
    } else {
        apply_op_spec(apply_ops_spec(g, infer, ops.drop_last()), infer, ops.last())
    }
}

/// Whether time `t` of session `sid` lies in the clock run of the operation.
pub open spec fn op_covers(op: DecodedOp, sid: u64, t: int) -> bool {
    let id = spec_op_id(op.op_view());
    id.sid == sid && id.time <= t <= span_end(id.time, spec_op_span(op.op_view()))
}

/// The view of the graph from its root (null when the root shows nothing),
/// or `fallback` when there is no root; the view may pass through as many
/// nodes as the store holds.
pub open spec fn graph_json(g: GraphView, fallback: JsonView) -> JsonView {
    match g.root {
        None => fallback,
        Some(r) => match node_json(g.nodes, r, g.nodes.len()) {
            Some(Some(v)) => v,
            _ => JsonView::Null,
        },
    }
}

/// Whether the view of the graph completes: no root, or a view from the
/// root that passes through at most as many nodes as the store holds (a
/// cycle under the root never completes).
pub open spec fn graph_view_completes(g: GraphView) -> bool {
    match g.root {
        None => true,
        Some(r) => node_json(g.nodes, r, g.nodes.len()) is Some,
    }
}

/// Operations whose clock runs stay within `u64` have runs that end there.
proof fn lemma_op_fits_span(op: DecodedOp)
    requires
        op_fits(op),
    ensures
        span_end(spec_op_id(op.op_view()).time, spec_op_span(op.op_view())) <= u64::MAX,
{
}

/// The session a model built from the view alone takes: 1 for a
/// server-clock binary, else the first clock table entry's (1 without one).
pub open spec fn fallback_sid(data: Seq<u8>) -> u64 {
    if data.len() > 0 && data[0] & 0x80u8 != 0 {
        1
    } else {
        match spec_parse_logical_clock_table(data) {
            Some((_, t)) => if t.len() > 0 {
                t[0].sid
            } else {
                1
            },
            None => 1,
        }
    }
}

/// Whether a JSON view is the empty object.
pub open spec fn is_empty_object(v: JsonView) -> bool {
    v matches JsonView::Object(es) && es.len() == 0
}

impl RuntimeModel {
    /// The node store and root.
    pub closed spec fn graph(&self) -> GraphView {
        GraphView { nodes: store_view(self.nodes@), root: self.root }
    }

    /// Everything but the graph and the observed clock ranges is as in
    /// `other`.
    pub closed spec fn same_state_but_graph_or_clock(&self, other: &Self) -> bool {
        &&& self.fallback_view == other.fallback_view
        &&& self.clock_table == other.clock_table
        &&& self.server_clock_time == other.server_clock_time
    }

    /// Everything but the graph is as in `other`.
    pub closed spec fn same_state_but_graph(&self, other: &Self) -> bool {
        &&& self.clock == other.clock
        &&& self.fallback_view == other.fallback_view
        &&& self.clock_table == other.clock_table
        &&& self.server_clock_time == other.server_clock_time
    }

    /// The clock ranges are well formed.
    pub closed spec fn wf(&self) -> bool {
        self.clock.wf()
    }

    /// Whether an empty object view lets the first object written with time
    /// 1 become the root.
    pub closed spec fn spec_infer_root(&self) -> bool {
        self.infer_empty_object_root
    }

    /// The view shown when there is no root.
    pub closed spec fn spec_fallback(&self) -> JsonView {
        self.fallback_view.jv()
    }

    /// The local clock and the peers' clocks.
    pub closed spec fn spec_clock_table(&self) -> Seq<LogicalClockBase> {
        self.clock_table@
    }

    /// The server clock time, for a server-clock model.
    pub closed spec fn spec_server_time(&self) -> Option<u64> {
        self.server_clock_time
    }

    /// The graph is the store's content and the root.
    proof fn lemma_graph(&self)
        ensures
            self.graph().nodes == store_view(self.nodes@),
            self.graph().root == self.root,
    {
    }

    /// Whether time `t` of session `sid` has been seen in applied patches.
    pub closed spec fn clock_covers(&self, sid: u64, t: int) -> bool {
        self.clock.observed@.contains_key(sid) && covered(self.clock.observed@[sid]@, t)
    }

    /// An empty logical-clock model for session `sid`.
    pub fn new_logical_empty(sid: u64) -> (res: RuntimeModel)
        ensures
            res.wf(),
            res.graph().nodes.len() == 0,
            res.graph().root is None,
            !res.spec_infer_root(),
            res.spec_fallback() == JsonView::Null,
            res.spec_clock_table() == seq![LogicalClockBase { sid, time: 0 }],
            res.spec_server_time() is None,
            forall|s: u64, t: int| !res.clock_covers(s, t),
    {
        let mut table: Vec<LogicalClockBase> = Vec::new();
        table.push(LogicalClockBase { sid, time: 0 });
        let res = RuntimeModel {
            nodes: Vec::new(),
            root: None,
            clock: ClockState::new(),
            fallback_view: JsonValue::Null,
            infer_empty_object_root: false,
            clock_table: table,
            server_clock_time: None,
        };
        proof {
            assert(res.clock_table@ =~= seq![LogicalClockBase { sid, time: 0 }]);
        }
        res
    }

    /// Applies the patch's operations in order: each one's clock run is
    /// recorded, then the operation changes the graph.
    pub fn apply_patch(&mut self, patch: &Patch) -> (res: Result<(), ApplyError>)
        requires
            old(self).wf(),
            forall|i: int| 0 <= i < patch.spec_ops().len() ==> op_fits(#[trigger] patch.spec_ops()[i]),
        ensures
            res is Ok,
            final(self).wf(),
            final(self).graph() == apply_ops_spec(old(self).graph(), old(self).spec_infer_root(), patch.spec_ops()),
            forall|sid: u64, t: int| #[trigger] final(self).clock_covers(sid, t) <==> (old(self).clock_covers(sid, t)
                || exists|i: int| 0 <= i < patch.spec_ops().len() && op_covers(#[trigger] patch.spec_ops()[i], sid, t)),
            final(self).spec_infer_root() == old(self).spec_infer_root(),
            final(self).spec_fallback() == old(self).spec_fallback(),
            final(self).spec_clock_table() == old(self).spec_clock_table(),
            final(self).spec_server_time() == old(self).spec_server_time(),
    {
        let ops = patch.decoded_ops();
        let ghost all = patch.spec_ops();
        let mut i: usize = 0;
        assert(all.take(0) =~= Seq::<DecodedOp>::empty());
        while i < ops.len()
            invariant
                i <= ops@.len(),
                ops@ == all,
                forall|j: int| 0 <= j < all.len() ==> op_fits(#[trigger] all[j]),
                self.wf(),
                self.graph() == apply_ops_spec(old(self).graph(), old(self).infer_empty_object_root, all.take(i as int)),
                forall|sid: u64, t: int| #[trigger] self.clock_covers(sid, t) <==> (old(self).clock_covers(sid, t)
                    || exists|j: int| 0 <= j < i && op_covers(#[trigger] all[j], sid, t)),
                self.same_state_but_graph_or_clock(old(self)),
                self.infer_empty_object_root == old(self).infer_empty_object_root,
            decreases ops.len() - i,
        {
            let op = &ops[i];
            let id = op.id();
            let span = op.span();
            proof {
                lemma_op_fits_span(*op);
            }
            let ghost before = *self;
            self.clock.observe(id.sid, id.time, span);
            proof {
                assert forall|sid: u64, t: int| #[trigger] self.clock_covers(sid, t) <==> (old(self).clock_covers(sid, t)
                    || exists|j: int| 0 <= j < i + 1 && op_covers(#[trigger] all[j], sid, t)) by {
                    if sid == id.sid {
                        assert(self.clock_covers(sid, t) <==> (before.clock_covers(sid, t) || op_covers(all[i as int], sid, t)));
                    } else {
                        if before.clock.observed@.contains_key(sid) {
                            assert(self.clock.observed@[sid] == before.clock.observed@[sid]);
                        }
                        assert(self.clock_covers(sid, t) <==> before.clock_covers(sid, t));
                        assert(!op_covers(all[i as int], sid, t));
                    }
                    if exists|j: int| 0 <= j < i + 1 && op_covers(#[trigger] all[j], sid, t) {
                        let j = choose|j: int| 0 <= j < i + 1 && op_covers(#[trigger] all[j], sid, t);
                        if j < i {
                            assert(exists|q: int| 0 <= q < i && op_covers(#[trigger] all[q], sid, t));
                        }
                    }
                }
            }
            let ghost mid = *self;
            let _ = self.apply_op(op);
            proof {
                assert forall|sid: u64, t: int| #[trigger] self.clock_covers(sid, t) == mid.clock_covers(sid, t) by {}
                assert(all.take(i + 1).drop_last() =~= all.take(i as int));
                assert(all.take(i + 1).last() == all[i as int]);
            }
            i = i + 1;
        }
        proof {
            assert(all.take(all.len() as int) =~= all);
        }
        Ok(())
    }

    /// Whether the document view completes (see `graph_view_completes`).
    pub open spec fn view_completes(&self) -> bool {
        graph_view_completes(self.graph())
    }

    /// The document view: from the root, or the fallback view when there
    /// is no root.
    pub open spec fn doc_json(&self) -> JsonView {
        graph_json(self.graph(), self.spec_fallback())
    }

    /// The document as JSON.
    pub fn view_json(&self) -> (res: JsonValue)
        requires
            self.view_completes(),
        ensures
            res.jv() == self.doc_json(),
    {
        match self.root {
            None => self.fallback_view.deep_clone(),
            Some(id) => {
                match self.view_rec(id, self.nodes.len()) {
                    Some(Some(v)) => v,
                    _ => JsonValue::Null,
                }
            },
        }
    }

    /// Whether the document view completes.
    pub fn has_finite_view(&self) -> (res: bool)
        ensures
            res == self.view_completes(),
    {
        match self.root {
            None => true,
            Some(id) => {
                let r = self.view_rec(id, self.nodes.len());
                r.is_some()
            },
        }
    }

    /// Whether the model is what the binary `data` gives when its view is
    /// `v`: the graph that the binary describes (when its decoding can
    /// succeed), else the graph built from `v` alone; no clock ranges seen
    /// and a null fallback view either way.
    pub open spec fn loaded_from(&self, data: Seq<u8>, v: JsonView) -> bool {
        &&& self.wf()
        &&& self.spec_infer_root() == is_empty_object(v)
        &&& self.spec_fallback() == JsonView::Null
        &&& forall|s: u64, t: int| !self.clock_covers(s, t)
        &&& ({
            let decoded = match spec_decode_graph(data) {
                GraphDec::Done(nodes, root, table, server, _) => store_agrees(self.graph().nodes, nodes)
                    && self.graph().root == root && self.spec_clock_table() == table && self.spec_server_time() == server,
                GraphDec::Fail(_, _) => false,
            };
            let may_fail = match spec_decode_graph(data) {
                GraphDec::Done(_, _, _, _, o) => o,
                GraphDec::Fail(_, _) => true,
            };
            let (s, root, next) = boot(Seq::empty(), v, fallback_sid(data), 1);
            let built = self.graph().nodes == s && self.graph().root == Some(root)
                && self.spec_clock_table() == seq![LogicalClockBase { sid: fallback_sid(data), time: if next == 0 { 0 } else { (next - 1) as u64 } }]
                && self.spec_server_time() is None;
            decoded || (may_fail && built)
        })
    }

    /// Loads a model binary: its view must decode (its failure is the
    /// result's); then its node graph is decoded, or, where that fails, built
    /// from the view.
    pub fn from_model_binary(data: &[u8]) -> (res: Result<RuntimeModel, ModelError>)
        ensures
            match res {
                Err(e) => view_result_ok(data@, Err(e)),
                Ok(m) => exists|v: JsonValue| view_result_ok(data@, Ok(v)) && m.loaded_from(data@, v.jv()),
            },
    {
        let view = match decode_model_view(data) {
            Ok(v) => v,
            Err(e) => {
                return Err(e);
            },
        };
        let infer = match &view {
            JsonValue::Object(es) => es.len() == 0,
            _ => false,
        };
        let m = match decode_runtime_graph(data) {
            Ok((nodes, root, table, server)) => RuntimeModel {
                nodes,
                root,
                clock: ClockState::new(),
                fallback_view: JsonValue::Null,
                infer_empty_object_root: infer,
                clock_table: table,
                server_clock_time: server,
            },
            Err(_) => {
                let sid = if data.len() > 0 && (data[0] & 0x80) != 0 {
                    1
                } else {
                    match first_logical_clock_sid_time(data) {
                        Some((sid, _)) => sid,
                        None => 1,
                    }
                };
                let (nodes, root, table) = bootstrap_graph_from_view(&view, sid);
                RuntimeModel {
                    nodes,
                    root,
                    clock: ClockState::new(),
                    fallback_view: JsonValue::Null,
                    infer_empty_object_root: infer,
                    clock_table: table,
                    server_clock_time: None,
                }
            },
        };
        proof {
            assert(view_result_ok(data@, Ok(view)));
            assert(m.loaded_from(data@, view.jv()));
        }
        Ok(m)
    }
}

} // verus!
