//! Plain data types of the dataflow graph: ids, nodes, per-node metadata,
//! subgraphs, and the runtime's states and events.


use vstd::prelude::*;

use crate::value::{BinOp, CmpOp, TypeFamily, UnaryOp, Value, ValueTag};

verus! {

/// Node id (globally contiguous; the value table is indexed by this).
#[derive(Clone, Copy, Debug, PartialEq, Eq, Structural, Hash, PartialOrd, Ord)]
pub struct NodeId(pub u32);

/// Subgraph id (function = subgraph).
#[derive(Clone, Copy, Debug, PartialEq, Eq, Structural, Hash)]
pub struct SubGraphId(pub u32);

/// Function id (one-to-one with `SubGraphId`; a semantic alias).
#[derive(Clone, Copy, Debug, PartialEq, Eq, Structural, Hash)]
pub struct FuncId(pub u32);

/// Subgraph instance id (runtime; one instance per invocation).
#[derive(Clone, Copy, Debug, PartialEq, Eq, Structural, Hash)]
pub struct SubgraphInstanceId(pub u32);

/// Frame id (runtime).
#[derive(Clone, Copy, Debug, PartialEq, Eq, Structural, Hash)]
pub struct FrameId(pub u32);

/// Compute function index.
#[derive(Clone, Copy, Debug, PartialEq, Eq, Structural, Hash)]
pub struct ComputeFnId(pub u32);

/// Channel id (runtime).
#[derive(Clone, Copy, Debug, PartialEq, Eq, Structural, Hash)]
pub struct ChannelId(pub u64);

/// Timer id (runtime).
#[derive(Clone, Copy, Debug, PartialEq, Eq, Structural, Hash)]
pub struct TimerId(pub u32);

/// Async handle id (runtime; async call completion event).
#[derive(Clone, Copy, Debug, PartialEq, Eq, Structural, Hash)]
pub struct AsyncHandleId(pub u32);

/// Node category: used by the scheduler to determine readiness, not for
/// operation dispatch.
#[derive(Clone, Copy, Debug, PartialEq, Eq, Structural, Hash)]
pub enum NodeKind {
    /// Constant.
    Const,
    /// Binary operation.
    BinOp,
    /// Ternary operation.
    TriOp,
    /// Unary operation.
    UnOp,
    /// Field access.
    FieldAccess,
    /// Function call: launches a subgraph and waits for its completion.
    Call,
    /// Event source consumption.
    Await,
    /// Conditional selection: activates the chosen subgraph.
    Gate,
    /// Event source declaration.
    EventSource,
}

/// Dataflow graph node: stores only topological references. The output is
/// implicitly the node's own id.
#[derive(Clone, Copy, Debug, PartialEq, Eq, Structural)]
pub struct Node {
    pub kind: NodeKind,
    pub input_count: u8,
    pub inputs_offset: u32,
    pub compute_fn: ComputeFnId,
}

/// Batching operation type.
#[derive(Clone, Copy, Debug, PartialEq, Eq, Structural, Hash)]
pub enum BatchOp {
    /// Binary arithmetic or bitwise operation (returns a scalar of the same type).
    Bin(BinOp),
    /// Comparison operation (returns bool).
    Cmp(CmpOp),
    /// Unary operation (returns a scalar of the same type).
    Unary(UnaryOp),
}

/// Batching info of a scalar operation node.
#[derive(Clone, Copy, Debug, PartialEq, Eq, Structural, Hash)]
pub struct BatchInfo {
    /// Input and output scalar type.
    pub tag: ValueTag,
    /// Operation type.
    pub op: BatchOp,
}

/// Compile-time constant. Floating-point constants are held as bit patterns;
/// `Str` refers into the graph's string pool.
#[derive(Clone, Copy, Debug, PartialEq, Eq, Structural)]
pub enum ConstValue {
    I8(i8),
    I16(i16),
    I32(i32),
    I64(i64),
    I128(i128),
    U8(u8),
    U16(u16),
    U32(u32),
    U64(u64),
    U128(u128),
    Isize(isize),
    Usize(usize),
    F32(u32),
    F64(u64),
    F16(u16),
    F128(u128),
    Bool(bool),
    Char(u32),
    /// String reference into the string pool.
    Str { offset: u32, len: u32 },
    Null,
    Void,
}

/// One branch of a Gate node: the condition value that selects it, the
/// subgraph it activates, and the parameter nodes (global ids).
#[derive(Clone, Debug)]
pub struct GateBranch {
    pub when: bool,
    pub subgraph: SubGraphId,
    pub params: Vec<NodeId>,
}

/// Branch info of a Gate node.
#[derive(Clone, Debug)]
pub struct GateBranches {
    /// Condition input node (global id).
    pub condition_input: NodeId,
    /// Branches, each with its own parameters.
    pub branches: Vec<GateBranch>,
    /// The selected branch's Return signal is captured as the node's value
    /// instead of propagating to the caller frame.
    pub capture: bool,
}

/// Branch info of a select expression.
#[derive(Clone, Debug)]
pub struct SelectInfo {
    pub branches: Vec<SelectBranch>,
}

/// A single branch of a select expression.
#[derive(Clone, Copy, Debug, PartialEq, Eq, Structural)]
pub struct SelectBranch {
    /// Branch subgraph id (executes the branch body).
    pub subgraph_id: SubGraphId,
    /// Event source type.
    pub event_kind: EventSourceKind,
    /// Node of the channel or timer handle (global id).
    pub event_source_node: NodeId,
}

/// Control signal: unified representation of non-local jumps.
#[derive(Clone, Debug)]
pub enum ControlSignal {
    /// No signal; normal execution.
    NoSignal,
    /// The subgraph returns this value early.
    Return(Value),
    /// Exits the loop.
    Break,
    /// Proceeds to the next loop iteration.
    Continue,
}

impl Default for ControlSignal {
    fn default() -> (r: Self)
        ensures
            r is NoSignal,
    {
        ControlSignal::NoSignal
    }
}

/// Frame state.
#[derive(Clone, Copy, Debug, PartialEq, Eq, Structural)]
pub enum FrameState {
    Ready,
    Running,
    Suspended,
    Cancelling,
    Completed,
    Failed,
}

/// Frame suspend state.
#[derive(Clone, Copy, Debug, PartialEq, Eq, Structural)]
pub enum SuspendState {
    /// Running normally.
    NotSuspended,
    /// Waiting for a subgraph frame to complete.
    WaitingSubgraph(FrameId),
    /// Waiting for a channel, timer or async event at this await node.
    WaitingEvent(NodeId),
}

/// Runtime event: drives suspended frames to resume execution.
#[derive(Clone, Copy, Debug, PartialEq, Eq, Structural, Hash)]
pub enum RuntimeEvent {
    SubgraphComplete(FrameId),
    ChannelReady(ChannelId),
    TimerFired(TimerId),
    AsyncJoin(AsyncHandleId),
}

/// Pending subgraph call, constructed when a call node executes.
#[derive(Clone, Debug)]
pub struct PendingCall {
    /// Target subgraph id.
    pub target_sg: SubGraphId,
    /// Call arguments.
    pub args: Vec<Value>,
    /// The node that initiated the call (local id).
    pub call_node_local: NodeId,
    /// True = do not suspend the current frame.
    pub is_async: bool,
    /// Closure value of an escaping closure call.
    pub closure_val: Option<Value>,
}

/// Pending await suspension, constructed when an await node executes.
#[derive(Clone, Debug)]
pub struct PendingAwait {
    /// The await node (local id).
    pub await_node_local: NodeId,
    /// Event object value.
    pub event_obj: Value,
    /// Event kind.
    pub event_kind: EventSourceKind,
}

/// Unified result of evaluating a node: all side effects are passed
/// explicitly through it.
#[derive(Clone, Debug)]
pub enum NodeResult {
    Value(Value),
    Batch(Vec<(NodeId, Value)>),
    Call(PendingCall),
    Await(PendingAwait),
    ChannelNotify(ChannelId),
    Cancel(AsyncHandleId),
    SelectWait(NodeId),
    Return(Value),
    Break,
    Continue,
}

/// Event source: a runtime object external to the graph whose produced value
/// is injected into an await node's input edge.
#[derive(Clone, Copy, Debug, PartialEq, Eq, Structural, Hash)]
pub enum EventSource {
    Channel(ChannelId),
    AsyncJoin(AsyncHandleId),
    Timer(TimerId),
    SubgraphComplete(SubgraphInstanceId),
}

/// Defer block definition: an independent subgraph, executed in LIFO order on
/// frame release.
#[derive(Clone, Debug)]
pub struct DeferEntry {
    /// Registration point.
    pub trigger_node: NodeId,
    /// Body subgraph.
    pub body_subgraph: SubGraphId,
    /// Nodes captured at registration.
    pub captured_inputs: Vec<NodeId>,
    /// Whether it has been registered to the frame's defer stack.
    pub registered: bool,
}

/// Runtime defer entry: a body subgraph and the values captured at
/// registration time.
#[derive(Clone, Debug)]
pub struct RuntimeDefer {
    pub body_subgraph: SubGraphId,
    pub captured_nodes: Vec<NodeId>,
    pub captured_values: Vec<Value>,
}

/// Construction kind.
#[derive(Clone, Copy, Debug, PartialEq, Eq, Structural)]
pub enum RecordLitKind {
    Record,
    Adt,
    Newtype,
}

/// Type field info.
#[derive(Clone, Debug)]
pub struct TypeFieldInfo {
    pub field_names: Vec<String>,
    pub owner_type: String,
    pub kind: RecordLitKind,
}

/// Record construction info.
#[derive(Clone, Debug)]
pub struct RecordLitInfo {
    pub owner_type: String,
    pub field_names: Vec<Option<String>>,
    pub constructor: String,
    pub kind: RecordLitKind,
}

/// Closure construction node info.
#[derive(Clone, Copy, Debug, PartialEq, Eq, Structural)]
pub struct ClosureInfo {
    /// Closure subgraph id.
    pub subgraph_id: SubGraphId,
    /// Number of lambda parameters (excluding captured upvalues).
    pub arity: u8,
    /// Index of the self-reference upvalue (-1 = none).
    pub self_upvalue_idx: i32,
}

/// Parameter or result type of a foreign function.
#[derive(Clone, Copy, Debug, PartialEq, Eq, Structural, Hash)]
pub enum AbiType {
    Void,
    Int,
    Float,
    Ptr,
}

/// Foreign-call info.
#[derive(Clone, Debug, Hash)]
pub struct DynFfiInfo {
    /// C symbol name.
    pub symbol: String,
    /// Parameter types; `str` parameters are expanded to (Ptr, Int).
    pub params: Vec<AbiType>,
    /// Result type.
    pub result: AbiType,
    /// Number of source-level argument values.
    pub arg_count: u8,
}

/// Partial application construction node info.
#[derive(Clone, Copy, Debug, PartialEq, Eq, Structural)]
pub struct PartialInfo {
    /// Target function subgraph id.
    pub subgraph_id: SubGraphId,
    /// Number of bound parameters.
    pub bound_count: u8,
}

/// Inline-trait construction node info.
#[derive(Clone, Debug)]
pub struct TraitConstructInfo {
    /// Trait name.
    pub trait_name: String,
    /// Method names (one-to-one with `methods`).
    pub method_names: Vec<String>,
    /// Subgraph info of each method.
    pub methods: Vec<TraitMethodEntry>,
}

/// Subgraph info of a single inline-trait method.
#[derive(Clone, Copy, Debug, PartialEq, Eq, Structural)]
pub struct TraitMethodEntry {
    pub subgraph_id: SubGraphId,
    pub arity: u8,
    pub upvalue_count: u8,
}

/// Lazy construction node info.
#[derive(Clone, Copy, Debug, PartialEq, Eq, Structural)]
pub struct LazyConstructInfo {
    /// Thunk subgraph id.
    pub thunk_sg: SubGraphId,
}

/// Record extension node info.
#[derive(Clone, Debug)]
pub struct RecordExtendInfo {
    /// Updated field names.
    pub update_names: Vec<String>,
}

/// Memoization cache node metadata.
#[derive(Clone, Copy, Debug, PartialEq, Eq, Structural)]
pub struct MemoInfo {
    /// Cache table index.
    pub table_index: u32,
    /// Number of parameters that form the cache key.
    pub param_count: u8,
}

/// Event source declaration.
#[derive(Clone, Copy, Debug, PartialEq, Eq, Structural)]
pub struct EventSourceDecl {
    pub node: NodeId,
    pub kind: EventSourceKind,
}

/// Event source kind.
#[derive(Clone, Copy, Debug, PartialEq, Eq, Structural, Hash)]
pub enum EventSourceKind {
    Channel,
    AsyncJoin,
    Timer,
    SubgraphComplete,
}

/// Loop subgraph kind.
#[derive(Clone, Copy, Debug, PartialEq, Eq, Structural)]
pub enum LoopKind {
    /// Ordinary subgraph.
    NotLoop,
    /// Contains cond + Gate.
    While,
    /// No cond; terminates via break.
    Loop,
    /// Contains iterator + cond.
    For,
    /// Loop body.
    LoopBody,
    /// Tail recursion turned into iteration.
    TailRec,
}

/// Function subgraph: each function compiles to one, and so does each branch
/// and loop inside it.
#[derive(Debug)]
pub struct SubGraph {
    /// Subgraph id.
    pub id: SubGraphId,
    /// Node id range [start, end).
    pub node_range: (NodeId, NodeId),
    /// Number of parameters.
    pub param_count: u8,
    /// Entry node (receives parameters).
    pub entry_node: NodeId,
    /// Return node (produces the return value).
    pub return_node: NodeId,
    /// Whether there are suspend points.
    pub has_suspend: bool,
    /// Declared event sources.
    pub event_source_decls: Vec<EventSourceDecl>,
    /// Defer block definitions.
    pub defer_table: Vec<DeferEntry>,
    /// Loop kind.
    pub loop_kind: LoopKind,
    /// A loop body points to its loop subgraph.
    pub loop_parent_sg: Option<SubGraphId>,
    /// Loop condition node.
    pub cond_node: Option<NodeId>,
    /// Owning function id (a top-level function subgraph has its own id).
    pub function_id: u32,
    /// For-loop iterator advance node.
    pub iter_next_node: Option<NodeId>,
    /// Upvalue count.
    pub upvalue_count: u8,
    /// Outer node of each upvalue.
    pub upvalue_outer_nodes: Vec<NodeId>,
    /// Ranges of the directly nested subgraphs.
    pub nested_ranges: Vec<(u32, u32)>,
    /// Frame-reuse reset plan (loop subgraphs only).
    pub reset_plan: Option<ResetPlan>,
}

/// Reset plan for subgraph frame reuse.
#[derive(Debug)]
pub struct ResetPlan {
    /// Nodes to reset to pending=0 and enqueue.
    pub reset_to_zero: Vec<NodeId>,
    /// Nodes to reset to pending=1.
    pub reset_to_one: Vec<NodeId>,
    /// Condition tree roots to reset recursively.
    pub reset_condition_tree: Vec<NodeId>,
    /// `reset_condition_tree` flattened into (node, pending) pairs.
    pub condition_tree_plan: Vec<(NodeId, u16)>,
}

/// Which side of the reference door a reference came from.
#[derive(Clone, Copy, Debug, PartialEq, Eq, Structural)]
pub enum NodeRefSite {
    /// Await source, writeback target, gate cond and params, select sources.
    NodeMeta,
    /// Subgraph anchors, defer registration, event decls, upvalues, reset plan.
    SgAnchor,
}

/// Effect classification of a compute function.
#[derive(Clone, Copy, Debug, PartialEq, Eq, Structural, Hash)]
pub enum EffectClass {
    /// No side effects, deterministic per input.
    Pure,
    /// Pure value-metadata reads, kept out of the CSE/LICM set.
    PureMeta,
    /// Allocates a distinct object per run.
    Alloc,
    /// Reads mutable state that is not tracked as a dataflow input edge.
    ReadMutable,
    /// In-place write to mutable state.
    WriteMutable,
    /// Writes a graph location.
    WriteLocal,
    /// Produces a non-local control signal or dispatches control.
    ControlFlow,
    /// Effect-chain ordering node.
    Sequence,
    /// Interacts with the async runtime.
    Async,
    /// Launches a subgraph or closure.
    Call,
    /// Foreign function call.
    Ffi,
    /// Engine- or frame-level effect.
    Runtime,
}

/// Loop context of continue and break.
#[derive(Clone, Copy, Debug)]
pub struct LoopContext {
    pub sg: SubGraphId,
    pub iter_node: Option<NodeId>,
    pub body_node_start: u32,
    /// For-loop's current-value param node.
    pub loop_var_node: Option<NodeId>,
}

/// Scalar-type arithmetic metadata.
#[derive(Clone, Copy, Debug, PartialEq, Eq, Structural)]
pub struct ScalarMeta {
    pub arith_base: u32,
    pub family: TypeFamily,
    pub is_float: bool,
}

} // verus!
