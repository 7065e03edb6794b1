//! Frames: the state of one running call.

use super::graph::DataFlowGraph;
use super::types::{
    ControlSignal, FrameId, FrameState, LoopKind, NodeId, RuntimeDefer, RuntimeEvent, SubGraphId, SuspendState, TimerId,
};
use super::value_table::ValueTable;
use crate::ast::tree::ExprId;
use crate::value::Value;
use std::collections::VecDeque;
use std::sync::Arc;
use vstd::prelude::*;

verus! {

/// Readiness, open inputs and first nodes with which a frame of the same
/// function was prepared the last time.
pub struct PrepCache {
    pub ready: Vec<u8>,
    pub pending: Vec<u16>,
    pub seed: Vec<NodeId>,
}

/// The state of one running call. Nodes are numbered from the first node of
/// the subgraph.
pub struct Frame {
    pub graph: Arc<DataFlowGraph>,
    pub value_table: ValueTable,
    /// Number of inputs that each node still waits for.
    pub pending_inputs: Vec<u16>,
    pub ready_queue: VecDeque<NodeId>,
    pub state: FrameState,
    pub subgraph_id: SubGraphId,
    /// The frame and node that made the call.
    pub caller: Option<(FrameId, NodeId)>,
    pub id: FrameId,
    /// Number of the subgraph's first node in the graph.
    pub node_offset: u32,
    pub control_signal: ControlSignal,
    pub suspend_state: SuspendState,
    pub defer_stack: Vec<RuntimeDefer>,
    pub suspend_event: Option<RuntimeEvent>,
    pub select_timers: Vec<(usize, TimerId)>,
    /// The frame of the function that this frame belongs to.
    pub root_frame: Option<Arc<Frame>>,
    /// The frame that launched this one.
    pub parent_frame: Option<Arc<Frame>>,
    pub cached_child_frame: Option<FrameId>,
    pub hot_body: Option<(FrameId, Box<Frame>)>,
    pub same_fn_prep_cache: Option<Box<PrepCache>>,
    pub linear_fresh: bool,
    pub closure_val: Option<Value>,
}

/// The node's number within a frame whose first node is `offset`; numbers in
/// front of it wrap round.
pub open spec fn local_of(node: NodeId, offset: u32) -> int {
    if node.0 >= offset {
        node.0 - offset
    } else {
        node.0 - offset + u32::MAX + 1
    }
}

/// Whether the frame itself gives the node's value: the node is one of its
/// own, and has its value or waits for nothing.
pub open spec fn gives(f: Frame, node: NodeId) -> bool {
    let i = local_of(node, f.node_offset);
    &&& i < f.value_table.values@.len()
    &&& f.value_table.is_ready_at(i) || f.pending_inputs@[i] == 0
}

/// The value of a node, looked for in the frame and then in those around it.
pub open spec fn value_in(f: Frame, node: NodeId) -> Value
    decreases f,
{
    if gives(f, node) {
        f.value_table.values@[local_of(node, f.node_offset)]
    } else {
        match f.parent_frame {
            Some(p) => value_in(*p, node),
            None => match f.root_frame {
                Some(r) => value_in(*r, node),
                None => Value::Null,
            },
        }
    }
}

impl Frame {
    /// The lists fit together, in this frame and in those around it.
    pub open spec fn wf(self) -> bool
        decreases self,
    {
        &&& self.value_table.wf()
        &&& self.pending_inputs@.len() == self.value_table.values@.len()
        &&& match self.parent_frame {
            Some(p) => p.wf(),
            None => true,
        }
        &&& match self.root_frame {
            Some(r) => r.wf(),
            None => true,
        }
    }

    /// A frame of `node_count` nodes that have no value and wait for nothing.
    pub fn new(id: FrameId, subgraph_id: SubGraphId, node_count: usize, graph: Arc<DataFlowGraph>) -> (f: Self)
        requires
            node_count <= usize::MAX - 7,
        ensures
            f.wf(),
            f.graph == graph,
            f.value_table.values@.len() == node_count,
            forall|i: int| 0 <= i < node_count ==> #[trigger] f.value_table.blank_at(i),
            forall|i: int| 0 <= i < node_count ==> #[trigger] f.pending_inputs@[i] == 0,
            f.ready_queue@.len() == 0,
            f.state == FrameState::Ready,
            f.subgraph_id == subgraph_id,
            f.caller is None,
            f.id == id,
            f.node_offset == 0,
            f.control_signal is NoSignal,
            f.suspend_state == SuspendState::NotSuspended,
            f.defer_stack@.len() == 0,
            f.suspend_event is None,
            f.select_timers@.len() == 0,
            f.root_frame is None,
            f.parent_frame is None,
            f.cached_child_frame is None,
            f.hot_body is None,
            f.same_fn_prep_cache is None,
            !f.linear_fresh,
            f.closure_val is None,
    {
        let mut pending: Vec<u16> = Vec::new();
        let mut i: usize = 0;
        while i < node_count
            invariant
                i <= node_count,
                pending@.len() == i,
                forall|k: int| 0 <= k < i ==> #[trigger] pending@[k] == 0,
            decreases node_count - i,
        {
            pending.push(0);
            i = i + 1;
        }
        Frame {
            graph,
            value_table: ValueTable::with_unready(node_count),
            pending_inputs: pending,
            ready_queue: VecDeque::new(),
            state: FrameState::Ready,
            subgraph_id,
            caller: None,
            id,
            node_offset: 0,
            control_signal: ControlSignal::NoSignal,
            suspend_state: SuspendState::NotSuspended,
            defer_stack: Vec::new(),
            suspend_event: None,
            select_timers: Vec::new(),
            root_frame: None,
            parent_frame: None,
            cached_child_frame: None,
            hot_body: None,
            same_fn_prep_cache: None,
            linear_fresh: false,
            closure_val: None,
        }
    }

    /// Puts a value into the slot of a node of this frame.
    pub fn set_value(&mut self, node: NodeId, value: Value, consumer_count: u16)
        requires
            old(self).wf(),
            node.0 < old(self).value_table.values@.len(),
        ensures
            final(self).wf(),
            final(self).value_table.values@ == old(self).value_table.values@.update(node.0 as int, value),
            final(self).value_table.refcounts@ == old(self).value_table.refcounts@.update(
                node.0 as int,
                consumer_count,
            ),
            final(self).value_table.is_ready_at(node.0 as int),
            forall|i: int|
                0 <= i < old(self).value_table.values@.len() && i != node.0 ==> #[trigger] final(self).value_table.same_at(
                    old(self).value_table,
                    i,
                ),
            *final(self) == (Frame { value_table: final(self).value_table, ..*old(self) }),
    {
        self.value_table.set_value(node.0 as usize, value, consumer_count);
    }

    /// The value of a node of this frame.
    pub fn get_value(&self, node: NodeId) -> (v: Value)
        requires
            node.0 < self.value_table.values@.len(),
        ensures
            v == self.value_table.values@[node.0 as int],
    {
        self.value_table.get_value(node.0 as usize)
    }

    /// The value of a node of the graph, looked for in this frame and then in
    /// those around it; null where none of them gives it.
    pub fn get_value_by_global(&self, global_node: NodeId) -> (v: Value)
        requires
            self.wf(),
        ensures
            v == value_in(*self, global_node),
        decreases *self,
    {
        let local: u32 = global_node.0.wrapping_sub(self.node_offset);
        assert(local == local_of(global_node, self.node_offset));
        if (local as usize) < self.value_table.len() {
            if self.value_table.is_ready(local as usize) || self.pending_inputs[local as usize] == 0 {
                return self.value_table.get_value(local as usize);
            }
        }
        match &self.parent_frame {
            Some(p) => p.get_value_by_global(global_node),
            None => match &self.root_frame {
                Some(r) => r.get_value_by_global(global_node),
                None => Value::Null,
            },
        }
    }

    /// Whether a node waits for nothing.
    pub fn is_node_ready(&self, node: NodeId) -> (r: bool)
        requires
            node.0 < self.pending_inputs@.len(),
        ensures
            r == (self.pending_inputs@[node.0 as int] == 0),
    {
        self.pending_inputs[node.0 as usize] == 0
    }

    /// Puts a node behind the queue of nodes to run.
    pub fn push_ready(&mut self, node: NodeId)
        ensures
            final(self).ready_queue@ == old(self).ready_queue@.push(node),
            *final(self) == (Frame { ready_queue: final(self).ready_queue, ..*old(self) }),
    {
        self.ready_queue.push_back(node);
    }

    /// Takes the first node of the queue.
    pub fn pop_ready(&mut self) -> (r: Option<NodeId>)
        ensures
            match r {
                Some(n) => {
                    &&& old(self).ready_queue@.len() > 0
                    &&& n == old(self).ready_queue@[0]
                    &&& final(self).ready_queue@ == old(self).ready_queue@.skip(1)
                },
                None => old(self).ready_queue@.len() == 0 && final(self).ready_queue@ == old(self).ready_queue@,
            },
            *final(self) == (Frame { ready_queue: final(self).ready_queue, ..*old(self) }),
    {
        let r = self.ready_queue.pop_front();
        assert(r is Some ==> self.ready_queue@ =~= old(self).ready_queue@.skip(1));
        r
    }
}

/// A node taken from the queue is the one that has waited longest: of two that
/// are put behind an empty queue the first comes out first.
pub proof fn law_queue_is_fifo(queue: Seq<NodeId>, a: NodeId, b: NodeId)
    requires
        queue.len() == 0,
    ensures
        queue.push(a).push(b)[0] == a,
        queue.push(a).push(b).skip(1)[0] == b,
        queue.push(a).push(b).skip(1).skip(1) =~= queue,
{
}

/// What a frame gives, those around it do not change: the value of a node is
/// its own slot, wherever the frame is nested.
pub proof fn law_own_value_wins(f: Frame, g: Frame, node: NodeId)
    requires
        gives(f, node),
        g.value_table == f.value_table,
        g.pending_inputs == f.pending_inputs,
        g.node_offset == f.node_offset,
    ensures
        value_in(g, node) == value_in(f, node),
        value_in(f, node) == f.value_table.values@[local_of(node, f.node_offset)],
{
}

/// What a compute function sees of the graph that runs.
pub struct EvalContext<'a> {
    /// Number of the subgraph's first node in the graph.
    pub node_start: u32,
    pub graph: &'a DataFlowGraph,
}

/// The nodes of the queue's first `n` places that were accepted, by their
/// numbers in the graph.
pub open spec fn accepted(queue: Seq<NodeId>, start: u32, answers: Seq<bool>, n: int) -> Seq<NodeId>
    decreases n,
{
    if n <= 0 {
        seq![]
    } else if answers[n - 1] {
        accepted(queue, start, answers, n - 1).push(NodeId((queue[n - 1].0 + start) as u32))
    } else {
        accepted(queue, start, answers, n - 1)
    }
}

impl<'a> EvalContext<'a> {
    /// The nodes of the frame's queue that the predicate accepts, by their
    /// numbers in the graph, in the order of the queue. The predicate is asked
    /// once for each.
    pub fn collect_batch_candidates<F: Fn(NodeId) -> bool>(&self, frame: &Frame, predicate: F) -> (r: Vec<NodeId>)
        requires
            forall|n: NodeId| predicate.requires((n,)),
            forall|i: int|
                0 <= i < frame.ready_queue@.len() ==> (#[trigger] frame.ready_queue@[i]).0 + self.node_start
                    <= u32::MAX,
        ensures
            exists|answers: Seq<bool>|
                #![trigger accepted(frame.ready_queue@, self.node_start, answers, frame.ready_queue@.len() as int)]
                {
                    &&& answers.len() == frame.ready_queue@.len()
                    &&& forall|i: int|
                        0 <= i < answers.len() ==> predicate.ensures(
                            (NodeId((frame.ready_queue@[i].0 + self.node_start) as u32),),
                            #[trigger] answers[i],
                        )
                    &&& r@ == accepted(
                        frame.ready_queue@,
                        self.node_start,
                        answers,
                        frame.ready_queue@.len() as int,
                    )
                },
    {
        let mut r: Vec<NodeId> = Vec::new();
        let ghost mut answers: Seq<bool> = seq![];
        let queue = &frame.ready_queue;
        let mut i: usize = 0;
        while i < queue.len()
            invariant
                i <= queue@.len(),
                queue@ == frame.ready_queue@,
                forall|n: NodeId| predicate.requires((n,)),
                forall|k: int|
                    0 <= k < frame.ready_queue@.len() ==> (#[trigger] frame.ready_queue@[k]).0 + self.node_start
                        <= u32::MAX,
                answers.len() == i,
                forall|k: int|
                    0 <= k < i ==> predicate.ensures(
                        (NodeId((frame.ready_queue@[k].0 + self.node_start) as u32),),
                        #[trigger] answers[k],
                    ),
                r@ == accepted(frame.ready_queue@, self.node_start, answers, i as int),
            decreases queue@.len() - i,
        {
            let gid = NodeId(queue[i].0 + self.node_start);
            let ok = predicate(gid);
            let ghost before = answers;
            proof {
                answers = answers.push(ok);
                lemma_accepted_prefix(frame.ready_queue@, self.node_start, before, ok, i as int);
            }
            if ok {
                r.push(gid);
            }
            i = i + 1;
        }
        r
    }

    /// Number of nodes that wait to be run.
    pub fn queue_len(&self, frame: &Frame) -> (n: usize)
        ensures
            n == frame.ready_queue@.len(),
    {
        frame.ready_queue.len()
    }
}

proof fn lemma_accepted_prefix(queue: Seq<NodeId>, start: u32, answers: Seq<bool>, more: bool, n: int)
    requires
        0 <= n <= answers.len(),
    ensures
        accepted(queue, start, answers.push(more), n) == accepted(queue, start, answers, n),
    decreases n,
{
    if n > 0 {
        lemma_accepted_prefix(queue, start, answers, more, n - 1);
        assert(answers.push(more)[n - 1] == answers[n - 1]);
    }
}

// ---- signals ---------------------------------------------------------------

/// Whether a signal passes from a subgraph to the frame that launched it: a
/// return from a branch or a loop does, a break or continue from a branch.
pub open spec fn passes_on(signal: ControlSignal, from_gate: bool, kind: LoopKind) -> bool {
    match signal {
        ControlSignal::Return(_) => from_gate || kind != LoopKind::NotLoop,
        ControlSignal::Break | ControlSignal::Continue => from_gate,
        ControlSignal::NoSignal => false,
    }
}

/// Whether a signal passes from a subgraph to the frame that launched it.
pub fn should_propagate_control_signal(
    child_signal: &ControlSignal,
    call_node_is_gate: bool,
    child_loop_kind: LoopKind,
) -> (r: bool)
    ensures
        r == passes_on(*child_signal, call_node_is_gate, child_loop_kind),
{
    match child_signal {
        ControlSignal::Return(_) => call_node_is_gate || child_loop_kind != LoopKind::NotLoop,
        ControlSignal::Break | ControlSignal::Continue => call_node_is_gate,
        ControlSignal::NoSignal => false,
    }
}

/// Nothing passes on from a call of another function, and from a loop only a
/// return does.
pub proof fn law_signals_stay_in_their_function(signal: ControlSignal, kind: LoopKind)
    ensures
        !passes_on(signal, false, LoopKind::NotLoop),
        passes_on(signal, false, kind) ==> signal is Return,
{
}

/// The number by which an expression is looked up among the checked types.
pub fn expr_id_to_key(id: ExprId) -> (key: u64)
    ensures
        key == id.0,
{
    id.0 as u64
}

/// A `return` passes on from a branch and from a loop, a `break` or `continue`
/// only from a branch, and without a signal nothing does.
pub proof fn law_which_signals_pass_on(signal: ControlSignal, from_gate: bool, kind: LoopKind)
    ensures
        signal is Return && (from_gate || kind != LoopKind::NotLoop) ==> passes_on(signal, from_gate, kind),
        signal is Return && !from_gate && kind == LoopKind::NotLoop ==> !passes_on(signal, from_gate, kind),
        signal is Break || signal is Continue ==> (passes_on(signal, from_gate, kind) <==> from_gate),
        signal is NoSignal ==> !passes_on(signal, from_gate, kind),
{
}

/// A node is looked for in the frame, then in the one that launched it, and only
/// then in that of its function; a node that none of them gives is null.
pub proof fn law_values_are_looked_for_outwards(f: Frame, node: NodeId)
    ensures
        node.0 >= f.node_offset && node.0 - f.node_offset < f.value_table.values@.len() && (f.value_table.is_ready_at(
            node.0 - f.node_offset,
        ) || f.pending_inputs@[node.0 - f.node_offset] == 0) ==> value_in(f, node) == f.value_table.values@[node.0
            - f.node_offset],
        !gives(f, node) && f.parent_frame is Some ==> value_in(f, node) == value_in(*(f.parent_frame->0), node),
        !gives(f, node) && f.parent_frame is None && f.root_frame is Some ==> value_in(f, node) == value_in(
            *(f.root_frame->0),
            node,
        ),
        !gives(f, node) && f.parent_frame is None && f.root_frame is None ==> value_in(f, node) == Value::Null,
{
}

/// The accepted nodes of a queue are those that were accepted, by their numbers
/// in the graph.
pub proof fn law_accepted_nodes_are_those(queue: Seq<NodeId>, start: u32, answers: Seq<bool>, n: int, i: int)
    requires
        0 <= i < n <= queue.len(),
        queue[i].0 + start <= u32::MAX,
    ensures
        answers[i] ==> accepted(queue, start, answers, n).contains(NodeId((queue[i].0 + start) as u32)),
        accepted(queue, start, answers, n).len() <= n,
    decreases n,
{
    let r = accepted(queue, start, answers, n - 1);
    let x = NodeId((queue[i].0 + start) as u32);
    if i < n - 1 {
        law_accepted_nodes_are_those(queue, start, answers, n - 1, i);
        if answers[i] {
            let k = choose|k: int| 0 <= k < r.len() && r[k] == x;
            assert(r.push(NodeId((queue[n - 1].0 + start) as u32))[k] == x);
        }
    } else {
        if n > 1 {
            lemma_accepted_len(queue, start, answers, n - 1);
        }
        assert(r.push(x)[r.len() as int] == x);
    }
}

proof fn lemma_accepted_len(queue: Seq<NodeId>, start: u32, answers: Seq<bool>, n: int)
    requires
        0 <= n,
    ensures
        accepted(queue, start, answers, n).len() <= n,
    decreases n,
{
    if n > 0 {
        lemma_accepted_len(queue, start, answers, n - 1);
    }
}

} // verus!
