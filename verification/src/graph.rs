//! The audio graph: node storage keyed by node id, an edge set, a cached
//! topological order, and the per-quantum render pass with channel
//! up/down-mixing.

use vstd::prelude::*;

use vstd::pervasive::VecAdditionalExecFns;

use crate::buffer::add_spec;
use crate::buffer::mix_spec;
use crate::buffer::silent_channel;
use crate::buffer::AudioBuffer;
use crate::buffer::ChannelConfig;
use crate::buffer::ChannelCountMode;
use crate::buffer::ChannelInterpretation;
use crate::control::ControlMessage;
use crate::control::Timestamp;
use crate::node::Processor;
use crate::BUFFER_SIZE;
use crate::SampleRate;

verus! {

/// Identifier of a node in the audio graph.
#[derive(Copy, Clone, PartialEq, Eq, Structural, Debug, Hash)]
pub struct NodeIndex(pub u64);

/// The special input port number that marks a parameter input: it
/// constrains the render order like any other connection, but the mixer
/// skips it.
pub const MAX_PORT: u32 = u32::MAX;

/// A connection from an output port of one node to an input port of
/// another.
#[derive(Copy, Clone, PartialEq, Eq, Structural, Debug)]
pub struct Edge {
    /// Source node.
    pub src: NodeIndex,
    /// Output port on the source node.
    pub src_port: u32,
    /// Destination node.
    pub dst: NodeIndex,
    /// Input port on the destination node.
    pub dst_port: u32,
}

/// Render-side record of one node: its processor, one pre-allocated
/// output buffer per output port, the declared port counts, the channel
/// mixing settings, and bookkeeping for its lifetime.
pub struct Node {
    /// The per-quantum computation of this node.
    pub processor: Processor,
    /// One output buffer per output port, each `BUFFER_SIZE` samples.
    pub buffers: Vec<AudioBuffer>,
    /// Declared number of input ports.
    pub inputs: usize,
    /// Declared number of output ports.
    pub outputs: usize,
    /// Channel mixing settings, shared with the control side.
    pub channel_config: ChannelConfig,
    /// Whether the node should be reclaimed once it has no work left.
    pub free_when_finished: bool,
    /// In how many render quanta this node has been processed; the
    /// render pass bumps it exactly once per quantum.
    pub quanta_processed: u64,
}

/// A keyed entry of the node table.
pub struct NodeEntry {
    /// The node id.
    pub id: u64,
    /// The node record.
    pub node: Node,
}

/// A node record is well formed when its buffer array matches its
/// declared output count, every buffer is a well-formed quantum-sized
/// block with at least one channel, and its channel count setting is a
/// positive integer.
pub open spec fn node_wf(n: Node) -> bool {
    &&& n.buffers@.len() == n.outputs
    &&& forall|k: int|
        0 <= k < n.buffers@.len() ==> {
            &&& (#[trigger] n.buffers@[k]).wf()
            &&& n.buffers@[k]@.len() >= 1
            &&& n.buffers@[k].spec_sample_len() == BUFFER_SIZE
        }
    &&& n.channel_config.spec_count() >= 1
    &&& processor_wf(n.processor)
}

/// A processor is storable when any internal stream state is well
/// formed.
pub open spec fn processor_wf(p: Processor) -> bool {
    p matches Processor::MediaStream(m) ==> m.wf()
}

/// Whether `s` holds a node index with the given id.
pub open spec fn contains_id(s: Seq<NodeIndex>, id: u64) -> bool {
    exists|k: int| 0 <= k < s.len() && s[k].0 == id
}

/// Whether the indices of `s` carry pairwise distinct ids.
pub open spec fn distinct_ids(s: Seq<NodeIndex>) -> bool {
    forall|k: int, l: int| 0 <= k < l < s.len() ==> (#[trigger] s[k]).0 != (#[trigger] s[l]).0
}

/// Whether the edge list holds a connection from node `s` to node `d`,
/// on any pair of ports.
pub open spec fn edge_in(edges: Seq<Edge>, s: u64, d: u64) -> bool {
    exists|e: int| 0 <= e < edges.len() && edges[e].src.0 == s && edges[e].dst.0 == d
}

/// Whether `p` is a chain of nodes connected head to tail by edges.
pub open spec fn is_edge_path(edges: Seq<Edge>, p: Seq<u64>) -> bool {
    forall|i: int| 0 <= i < p.len() - 1 ==> #[trigger] edge_in(edges, p[i], p[i + 1])
}

/// Whether the edge list admits no directed cycle.
pub open spec fn acyclic(edges: Seq<Edge>) -> bool {
    forall|p: Seq<u64>|
        !(p.len() >= 2 && p[0] == p[p.len() - 1] && #[trigger] is_edge_path(edges, p))
}

/// Whether no directed cycle runs through stored nodes that feed the
/// destination.  Cycles among orphan nodes are irrelevant: they are
/// never rendered.
pub open spec fn cycle_free_into(edges: Seq<Edge>, node_ids: Seq<u64>) -> bool {
    forall|p: Seq<u64>|
        !(p.len() >= 2 && p[0] == p[p.len() - 1] && #[trigger] is_edge_path(edges, p) && (
        forall|i: int| 0 <= i < p.len() ==> node_ids.contains(#[trigger] p[i]))
            && feeds_destination(edges, node_ids, p[0]))
}

/// An edge set without any directed cycle in particular has none
/// through the rendered subgraph.
pub proof fn lemma_acyclic_cycle_free(edges: Seq<Edge>, node_ids: Seq<u64>)
    requires
        acyclic(edges),
    ensures
        cycle_free_into(edges, node_ids),
{
}

/// Whether `ordered` lists, for every edge between stored nodes whose
/// destination it holds, the source strictly earlier: a topological
/// order of the rendered subgraph.
pub open spec fn topo_sorted(edges: Seq<Edge>, present: Seq<u64>, ordered: Seq<NodeIndex>) -> bool {
    forall|j: int, p: u64|
        0 <= j < ordered.len() && #[trigger] edge_in(edges, p, ordered[j].0) && present.contains(p)
            ==> exists|i: int| 0 <= i < j && ordered[i].0 == p
}

/// The chain of nodes whose depth-first visits are on the call stack,
/// bottom first: each later element feeds the one before it.
pub open spec fn stack_path(edges: Seq<Edge>, s: Seq<u64>) -> bool {
    forall|i: int| 0 <= i < s.len() - 1 ==> #[trigger] edge_in(edges, s[i + 1], s[i])
}

/// Whether the stored node `id` feeds the destination: there is a chain
/// of connections from it down to node `0` that runs through stored
/// nodes only.  The destination itself trivially qualifies.
pub open spec fn feeds_destination(edges: Seq<Edge>, node_ids: Seq<u64>, id: u64) -> bool {
    exists|p: Seq<u64>|
        {
            &&& p.len() >= 1
            &&& p[0] == id
            &&& p[p.len() - 1] == 0
            &&& #[trigger] is_edge_path(edges, p)
            &&& forall|i: int| 0 <= i < p.len() ==> node_ids.contains(#[trigger] p[i])
        }
}

/// Every stored node on a stored chain into an order that is closed
/// under stored sources is itself in the order.
proof fn lemma_path_in_order(
    edges: Seq<Edge>,
    node_ids: Seq<u64>,
    ordered: Seq<NodeIndex>,
    p: Seq<u64>,
    i: int,
)
    requires
        contains_id(ordered, 0),
        forall|j: int, q: u64|
            0 <= j < ordered.len() && #[trigger] edge_in(edges, q, ordered[j].0)
                && node_ids.contains(q) ==> contains_id(ordered, q),
        p.len() >= 1,
        p[p.len() - 1] == 0,
        is_edge_path(edges, p),
        forall|j: int| 0 <= j < p.len() ==> node_ids.contains(#[trigger] p[j]),
        0 <= i < p.len(),
    ensures
        contains_id(ordered, p[i]),
    decreases p.len() - i,
{
    if i == p.len() - 1 {
        assert(contains_id(ordered, 0));
    } else {
        lemma_path_in_order(edges, node_ids, ordered, p, i + 1);
        let w = choose|w: int| 0 <= w < ordered.len() && ordered[w].0 == p[i + 1];
        assert(edge_in(edges, p[i], p[i + 1]));
        assert(edge_in(edges, p[i], ordered[w].0));
    }
}

/// A sequence of distinct values drawn from `ids` cannot be longer than
/// `ids`.
proof fn lemma_distinct_bound(marked: Seq<u64>, ids: Seq<u64>)
    requires
        marked.no_duplicates(),
        forall|x: u64| marked.contains(x) ==> ids.contains(x),
    ensures
        marked.len() <= ids.len(),
{
    broadcast use vstd::seq_lib::seq_to_set_is_finite;

    marked.unique_seq_to_set();
    ids.lemma_cardinality_of_set();
    assert(marked.to_set() <= ids.to_set());
    vstd::set_lib::lemma_len_subset(marked.to_set(), ids.to_set());
}

/// An edge from a node on the visit stack back into the node on top of
/// the stack closes a directed cycle — one that runs through stored
/// nodes feeding the destination.
proof fn lemma_stack_cycle(edges: Seq<Edge>, node_ids: Seq<u64>, s: Seq<u64>, j: int)
    requires
        stack_path(edges, s),
        0 <= j < s.len(),
        edge_in(edges, s[j], s[s.len() - 1]),
        forall|i: int| 0 <= i < s.len() ==> node_ids.contains(#[trigger] s[i]),
        feeds_destination(edges, node_ids, s[s.len() - 1]),
    ensures
        !cycle_free_into(edges, node_ids),
{
    let top = s[s.len() - 1];
    let down = Seq::new((s.len() - j) as nat, |i: int| s[s.len() - 1 - i]);
    let p = down.push(top);
    assert(p[0] == top);
    assert(p[p.len() - 1] == top);
    assert forall|i: int| 0 <= i < p.len() - 1 implies #[trigger] edge_in(edges, p[i], p[i + 1]) by {
        if i < p.len() - 2 {
            assert(p[i] == down[i]);
            assert(p[i + 1] == down[i + 1]);
            assert(down[i] == s[s.len() - 1 - i]);
            assert(down[i + 1] == s[s.len() - 2 - i]);
            let k = s.len() - 2 - i;
            assert(edge_in(edges, s[k + 1], s[k]));
        } else {
            assert(p[i] == down[down.len() - 1]);
            assert(down[down.len() - 1] == s[j]);
            assert(p[i + 1] == top);
        }
    };
    assert(is_edge_path(edges, p));
    assert forall|i: int| 0 <= i < p.len() implies node_ids.contains(#[trigger] p[i]) by {
        if i < p.len() - 1 {
            assert(p[i] == down[i]);
            assert(down[i] == s[s.len() - 1 - i]);
        } else {
            assert(p[i] == top);
        }
    };
    if cycle_free_into(edges, node_ids) {
        assert(!(p.len() >= 2 && p[0] == p[p.len() - 1] && is_edge_path(edges, p) && (forall|
            i: int,
        | 0 <= i < p.len() ==> node_ids.contains(#[trigger] p[i])) && feeds_destination(
            edges,
            node_ids,
            p[0],
        )));
        assert(false);
    }
}

/// Whether the vector holds the given node index.
fn contains_index(v: &Vec<NodeIndex>, x: NodeIndex) -> (r: bool)
    ensures
        r == contains_id(v@, x.0),
{
    let n = v.len();
    let mut k: usize = 0;
    while k < n
        invariant
            k <= n,
            n == v@.len(),
            forall|l: int| 0 <= l < k ==> (#[trigger] v@[l]).0 != x.0,
        decreases n - k,
    {
        if v[k].0 == x.0 {
            return true;
        }
        k += 1;
    }
    false
}

/// Holds nodes keyed by node id, the edge set, and a cached topological
/// order; performs the per-quantum render pass.
pub struct Graph {
    nodes: Vec<NodeEntry>,
    edges: Vec<Edge>,
    ordered: Vec<NodeIndex>,
}

impl Graph {
    /// The node table, as a spec-level value.
    pub closed spec fn spec_nodes(&self) -> Seq<NodeEntry> {
        self.nodes@
    }

    /// The edge list, as a spec-level value.
    pub closed spec fn spec_edges(&self) -> Seq<Edge> {
        self.edges@
    }

    /// The cached render order, as a spec-level value.
    pub closed spec fn spec_ordered(&self) -> Seq<NodeIndex> {
        self.ordered@
    }

    /// The ids of the stored nodes, in table order.
    pub open spec fn node_ids(&self) -> Seq<u64> {
        self.spec_nodes().map_values(|e: NodeEntry| e.id)
    }

    /// Whether a node with the given id is stored.
    pub open spec fn contains_node(&self, id: u64) -> bool {
        self.node_ids().contains(id)
    }

    /// The table position of the node with the given id.
    pub open spec fn index_of(&self, id: u64) -> int {
        choose|k: int| 0 <= k < self.spec_nodes().len() && self.spec_nodes()[k].id == id
    }

    /// The stored node with the given id.
    pub open spec fn node_of(&self, id: u64) -> Node {
        self.spec_nodes()[self.index_of(id)].node
    }

    /// Well-formedness: node ids are unique, the edge list holds no
    /// duplicates, every node record is well formed, and the cached
    /// order lists distinct, stored nodes.
    pub open spec fn wf(&self) -> bool {
        &&& forall|k: int, l: int|
            0 <= k < l < self.spec_nodes().len() ==> (#[trigger] self.spec_nodes()[k]).id != (
            #[trigger] self.spec_nodes()[l]).id
        &&& forall|k: int, l: int|
            0 <= k < l < self.spec_edges().len() ==> (#[trigger] self.spec_edges()[k]) != (
            #[trigger] self.spec_edges()[l])
        &&& forall|k: int|
            0 <= k < self.spec_nodes().len() ==> node_wf((#[trigger] self.spec_nodes()[k]).node)
        &&& distinct_ids(self.spec_ordered())
        &&& forall|k: int|
            0 <= k < self.spec_ordered().len() ==> self.contains_node(
                (#[trigger] self.spec_ordered()[k]).0,
            )
    }

    /// The invariant of the depth-first visit: `marked` and `ordered`
    /// carry distinct stored nodes, everything placed is marked, a
    /// marked node is either placed or on the visit stack, nothing on
    /// the stack is placed yet, and — on an acyclic edge set — the
    /// placed prefix is topologically sorted.
    pub open spec fn visit_inv(
        &self,
        marked: Seq<NodeIndex>,
        ordered: Seq<NodeIndex>,
        stack: Seq<u64>,
    ) -> bool {
        &&& distinct_ids(marked)
        &&& distinct_ids(ordered)
        &&& forall|k: int| 0 <= k < marked.len() ==> self.contains_node((#[trigger] marked[k]).0)
        &&& forall|k: int| 0 <= k < ordered.len() ==> contains_id(marked, (#[trigger] ordered[k]).0)
        &&& forall|id: u64|
            #[trigger] contains_id(marked, id) ==> contains_id(ordered, id) || stack.contains(id)
        &&& forall|id: u64|
            #[trigger] stack.contains(id) ==> contains_id(marked, id) && !contains_id(ordered, id)
        &&& forall|j: int, q: u64|
            0 <= j < ordered.len() && #[trigger] edge_in(self.spec_edges(), q, ordered[j].0)
                && self.contains_node(q) ==> contains_id(marked, q)
        &&& forall|k: int|
            0 <= k < ordered.len() ==> feeds_destination(
                self.spec_edges(),
                self.node_ids(),
                (#[trigger] ordered[k]).0,
            )
        &&& cycle_free_into(self.spec_edges(), self.node_ids()) ==> topo_sorted(
            self.spec_edges(),
            self.node_ids(),
            ordered,
        )
    }

    /// Under the visit invariant, the marked set cannot outgrow the node
    /// table.
    proof fn lemma_inv_bound(
        &self,
        marked: Seq<NodeIndex>,
        ordered: Seq<NodeIndex>,
        stack: Seq<u64>,
    )
        requires
            self.visit_inv(marked, ordered, stack),
        ensures
            marked.len() <= self.spec_nodes().len(),
    {
        let ids = marked.map_values(|x: NodeIndex| x.0);
        assert forall|i: int, j: int|
            0 <= i < ids.len() && 0 <= j < ids.len() && i != j implies ids[i] != ids[j] by {
            assert(ids[i] == marked[i].0);
            assert(ids[j] == marked[j].0);
        };
        assert(ids.no_duplicates());
        assert forall|x: u64| ids.contains(x) implies self.node_ids().contains(x) by {
            let k = choose|k: int| 0 <= k < ids.len() && ids[k] == x;
            assert(marked[k].0 == x);
            assert(self.contains_node(marked[k].0));
        };
        lemma_distinct_bound(ids, self.node_ids());
    }

    /// The cached render order.
    pub fn ordered(&self) -> (r: &Vec<NodeIndex>)
        ensures
            r@ == self.spec_ordered(),
    {
        &self.ordered
    }

    /// The edge list.
    pub fn edges(&self) -> (r: &Vec<Edge>)
        ensures
            r@ == self.spec_edges(),
    {
        &self.edges
    }

    /// The table position of the node with the given id, if stored.
    fn find_node(&self, id: u64) -> (r: Option<usize>)
        ensures
            r is Some <==> self.contains_node(id),
            r matches Some(k) ==> 0 <= (k as int) < self.spec_nodes().len() && self.spec_nodes()[
                k as int
            ].id == id,
    {
        let n = self.nodes.len();
        let mut k: usize = 0;
        while k < n
            invariant
                k <= n,
                n == self.spec_nodes().len(),
                forall|l: int| 0 <= l < k ==> (#[trigger] self.spec_nodes()[l]).id != id,
            decreases n - k,
        {
            if self.nodes[k].id == id {
                proof {
                    assert(self.node_ids()[k as int] == id);
                }
                return Some(k);
            }
            k += 1;
        }
        proof {
            if self.contains_node(id) {
                let w = choose|l: int| 0 <= l < self.node_ids().len() && self.node_ids()[l] == id;
                assert(self.spec_nodes()[w].id == id);
                assert(false);
            }
        }
        None
    }

    /// Visit `n` and, recursively, its upstream sources: mark each node
    /// the first time it is seen, and append it to `ordered` once every
    /// source feeding it has been handled.  Ids without a stored node
    /// are skipped.
    fn visit(
        &self,
        n: NodeIndex,
        marked: &mut Vec<NodeIndex>,
        ordered: &mut Vec<NodeIndex>,
        Ghost(stack): Ghost<Seq<u64>>,
    )
        requires
            self.wf(),
            stack_path(self.spec_edges(), stack.push(n.0)),
            stack.push(n.0)[0] == 0,
            old(marked)@.len() <= self.spec_nodes().len(),
            self.visit_inv(old(marked)@, old(ordered)@, stack),
        ensures
            self.visit_inv(final(marked)@, final(ordered)@, stack),
            old(marked)@.is_prefix_of(final(marked)@),
            old(ordered)@.is_prefix_of(final(ordered)@),
            self.contains_node(n.0) ==> contains_id(final(marked)@, n.0),
        decreases self.spec_nodes().len() - old(marked)@.len(),
    {
        if self.find_node(n.0).is_none() {
            return ;
        }
        if contains_index(marked, n) {
            return ;
        }
        marked.push(n);
        let ghost stack1 = stack.push(n.0);
        proof {
            assert(marked@[marked@.len() - 1].0 == n.0);
            assert(contains_id(marked@, n.0));
            assert(stack1.contains(n.0)) by {
                assert(stack1[stack1.len() - 1] == n.0);
            }
            // distinct ids still hold: `n` was unmarked
            assert forall|k: int, l: int| 0 <= k < l < marked@.len() implies (
            #[trigger] marked@[k]).0 != (#[trigger] marked@[l]).0 by {
                if l == marked@.len() - 1 {
                    assert(marked@[k] == old(marked)@[k]);
                    if marked@[k].0 == n.0 {
                        assert(contains_id(old(marked)@, n.0));
                    }
                }
            };
            // every marked node is stored
            assert forall|k: int| 0 <= k < marked@.len() implies self.contains_node(
                (#[trigger] marked@[k]).0,
            ) by {
                if k < marked@.len() - 1 {
                    assert(marked@[k] == old(marked)@[k]);
                }
            };
            // everything placed is marked
            assert forall|k: int| 0 <= k < ordered@.len() implies contains_id(
                marked@,
                (#[trigger] ordered@[k]).0,
            ) by {
                let w = choose|w: int|
                    0 <= w < old(marked)@.len() && old(marked)@[w].0 == ordered@[k].0;
                assert(marked@[w].0 == ordered@[k].0);
            };
            // a marked node is placed or on the pushed stack
            assert forall|id: u64| #[trigger] contains_id(marked@, id) implies contains_id(
                ordered@,
                id,
            ) || stack1.contains(id) by {
                let k = choose|k: int| 0 <= k < marked@.len() && marked@[k].0 == id;
                if k < marked@.len() - 1 {
                    assert(marked@[k] == old(marked)@[k]);
                    assert(contains_id(old(marked)@, id));
                    if stack.contains(id) {
                        let w = choose|w: int| 0 <= w < stack.len() && stack[w] == id;
                        assert(stack1[w] == id);
                    }
                } else {
                    assert(id == n.0);
                }
            };
            // nothing on the pushed stack is placed
            assert forall|id: u64| #[trigger] stack1.contains(id) implies contains_id(marked@, id)
                && !contains_id(ordered@, id) by {
                let k = choose|k: int| 0 <= k < stack1.len() && stack1[k] == id;
                if k < stack1.len() - 1 {
                    assert(stack.contains(id)) by {
                        assert(stack[k] == id);
                    }
                    assert(contains_id(old(marked)@, id));
                    let w = choose|w: int|
                        0 <= w < old(marked)@.len() && old(marked)@[w].0 == id;
                    assert(marked@[w].0 == id);
                } else {
                    assert(id == n.0);
                    if contains_id(ordered@, n.0) {
                        assert(contains_id(old(marked)@, n.0));
                        assert(false);
                    }
                }
            };
            // closure under stored sources survives the growth of `marked`
            assert forall|j: int, q: u64|
                0 <= j < ordered@.len() && #[trigger] edge_in(self.spec_edges(), q, ordered@[j].0)
                    && self.contains_node(q) implies contains_id(marked@, q) by {
                assert(contains_id(old(marked)@, q));
                let w = choose|w: int| 0 <= w < old(marked)@.len() && old(marked)@[w].0 == q;
                assert(marked@[w].0 == q);
            };
            assert(self.visit_inv(marked@, ordered@, stack1));
        }
        let ne = self.edges.len();
        let mut e: usize = 0;
        while e < ne
            invariant
                self.wf(),
                ne == self.spec_edges().len(),
                e <= ne,
                stack_path(self.spec_edges(), stack.push(n.0)),
                stack.push(n.0)[0] == 0,
                stack1 == stack.push(n.0),
                self.visit_inv(marked@, ordered@, stack1),
                contains_id(marked@, n.0),
                marked@.len() >= old(marked)@.len() + 1,
                old(marked)@.is_prefix_of(marked@),
                old(ordered)@.is_prefix_of(ordered@),
                forall|f: int|
                    0 <= f < e && (#[trigger] self.spec_edges()[f]).dst.0 == n.0
                        && self.contains_node(self.spec_edges()[f].src.0) ==> contains_id(
                        marked@,
                        self.spec_edges()[f].src.0,
                    ),
            decreases ne - e,
        {
            let edge = self.edges[e];
            if edge.dst.0 == n.0 {
                let c = edge.src;
                proof {
                    assert(edge_in(self.spec_edges(), c.0, n.0)) by {
                        assert(self.spec_edges()[e as int].src.0 == c.0);
                        assert(self.spec_edges()[e as int].dst.0 == n.0);
                    }
                    assert forall|i: int| 0 <= i < stack1.push(c.0).len() - 1 implies #[trigger] edge_in(
                        self.spec_edges(),
                        stack1.push(c.0)[i + 1],
                        stack1.push(c.0)[i],
                    ) by {
                        if i < stack1.len() - 1 {
                            assert(stack1.push(c.0)[i] == stack1[i]);
                            assert(stack1.push(c.0)[i + 1] == stack1[i + 1]);
                            assert(edge_in(
                                self.spec_edges(),
                                stack.push(n.0)[i + 1],
                                stack.push(n.0)[i],
                            ));
                        } else {
                            assert(stack1.push(c.0)[i] == stack1[stack1.len() - 1]);
                            assert(stack1[stack1.len() - 1] == n.0);
                            assert(stack1.push(c.0)[i + 1] == c.0);
                        }
                    };
                    self.lemma_inv_bound(marked@, ordered@, stack1);
                }
                self.visit(c, marked, ordered, Ghost(stack1));
            }
            e += 1;
        }
        // Place `n`.  Every stored source feeding it is marked; if no
        // cycle runs through the rendered subgraph, none of them can
        // still sit on the visit stack, so all of them are already
        // placed.
        proof {
            let pre_ordered = ordered@;
            // the visit chain itself is a stored path from `n` down to
            // the destination
            assert(feeds_destination(self.spec_edges(), self.node_ids(), n.0)) by {
                let p = stack1.reverse();
                assert(p.len() >= 1);
                assert(p[0] == stack1[stack1.len() - 1]);
                assert(stack1[stack1.len() - 1] == n.0);
                assert(p[p.len() - 1] == stack1[0]);
                assert forall|i: int| 0 <= i < p.len() - 1 implies #[trigger] edge_in(
                    self.spec_edges(),
                    p[i],
                    p[i + 1],
                ) by {
                    assert(p[i] == stack1[stack1.len() - 1 - i]);
                    assert(p[i + 1] == stack1[stack1.len() - 2 - i]);
                    let k = stack1.len() - 2 - i;
                    assert(edge_in(self.spec_edges(), stack.push(n.0)[k + 1], stack.push(n.0)[k]));
                };
                assert(is_edge_path(self.spec_edges(), p));
                assert forall|i: int| 0 <= i < p.len() implies self.node_ids().contains(
                    #[trigger] p[i],
                ) by {
                    assert(stack1.contains(p[i])) by {
                        assert(stack1[stack1.len() - 1 - i] == p[i]);
                    }
                    assert(contains_id(marked@, p[i]));
                    let w = choose|w: int| 0 <= w < marked@.len() && marked@[w].0 == p[i];
                    assert(self.contains_node(marked@[w].0));
                };
            }
            if cycle_free_into(self.spec_edges(), self.node_ids()) {
                assert forall|p: u64|
                    #[trigger] edge_in(self.spec_edges(), p, n.0) && self.contains_node(p) implies
                    contains_id(pre_ordered, p) by {
                    let f = choose|f: int|
                        0 <= f < self.spec_edges().len() && self.spec_edges()[f].src.0 == p
                            && self.spec_edges()[f].dst.0 == n.0;
                    assert(contains_id(marked@, p));
                    if !contains_id(pre_ordered, p) {
                        assert(stack1.contains(p));
                        let j = choose|j: int| 0 <= j < stack1.len() && stack1[j] == p;
                        assert(stack1[stack1.len() - 1] == n.0);
                        assert(edge_in(self.spec_edges(), stack1[j], stack1[stack1.len() - 1]));
                        assert forall|i: int| 0 <= i < stack1.len() implies self.node_ids()
                            .contains(#[trigger] stack1[i]) by {
                            assert(contains_id(marked@, stack1[i])) by {
                                assert(stack1.contains(stack1[i]));
                            }
                            let w = choose|w: int|
                                0 <= w < marked@.len() && marked@[w].0 == stack1[i];
                            assert(self.contains_node(marked@[w].0));
                        };
                        lemma_stack_cycle(self.spec_edges(), self.node_ids(), stack1, j);
                        assert(false);
                    }
                };
            }
        }
        let ghost pre_ordered = ordered@;
        ordered.push(n);
        proof {
            assert(ordered@[ordered@.len() - 1].0 == n.0);
            assert(contains_id(ordered@, n.0));
            assert(!contains_id(pre_ordered, n.0)) by {
                assert(stack1.contains(n.0));
            }
            // distinct ids in the grown order
            assert forall|k: int, l: int| 0 <= k < l < ordered@.len() implies (
            #[trigger] ordered@[k]).0 != (#[trigger] ordered@[l]).0 by {
                if l == ordered@.len() - 1 {
                    assert(ordered@[k] == pre_ordered[k]);
                    if ordered@[k].0 == n.0 {
                        assert(contains_id(pre_ordered, n.0));
                    }
                }
            };
            // everything placed is marked
            assert forall|k: int| 0 <= k < ordered@.len() implies contains_id(
                marked@,
                (#[trigger] ordered@[k]).0,
            ) by {
                if k < ordered@.len() - 1 {
                    assert(contains_id(marked@, pre_ordered[k].0));
                }
            };
            // a marked node is placed or on the caller's stack
            assert forall|id: u64| #[trigger] contains_id(marked@, id) implies contains_id(
                ordered@,
                id,
            ) || stack.contains(id) by {
                if id == n.0 {
                } else {
                    assert(contains_id(pre_ordered, id) || stack1.contains(id));
                    if contains_id(pre_ordered, id) {
                        let w = choose|w: int|
                            0 <= w < pre_ordered.len() && pre_ordered[w].0 == id;
                        assert(ordered@[w].0 == id);
                    } else {
                        let k = choose|k: int| 0 <= k < stack1.len() && stack1[k] == id;
                        assert(k < stack1.len() - 1);
                        assert(stack[k] == id);
                    }
                }
            };
            // nothing on the caller's stack is placed
            assert forall|id: u64| #[trigger] stack.contains(id) implies contains_id(marked@, id)
                && !contains_id(ordered@, id) by {
                assert(stack1.contains(id)) by {
                    let k = choose|k: int| 0 <= k < stack.len() && stack[k] == id;
                    assert(stack1[k] == id);
                }
                assert(!contains_id(pre_ordered, id));
                if contains_id(ordered@, id) {
                    let w = choose|w: int| 0 <= w < ordered@.len() && ordered@[w].0 == id;
                    if w < ordered@.len() - 1 {
                        assert(contains_id(pre_ordered, id));
                        assert(false);
                    } else {
                        assert(id == n.0);
                        assert(stack1.contains(n.0));
                        assert(!contains_id(pre_ordered, n.0));
                        // n.0 is on stack1 but stack does not hold it:
                        // it was unmarked at entry while stack elements
                        // are marked
                        assert(contains_id(old(marked)@, id));
                        assert(false);
                    }
                }
            };
            // the order stays closed under stored sources
            assert forall|j: int, q: u64|
                0 <= j < ordered@.len() && #[trigger] edge_in(self.spec_edges(), q, ordered@[j].0)
                    && self.contains_node(q) implies contains_id(marked@, q) by {
                if j < ordered@.len() - 1 {
                    assert(ordered@[j] == pre_ordered[j]);
                }
            };
            // every placed node feeds the destination
            assert forall|k: int| 0 <= k < ordered@.len() implies feeds_destination(
                self.spec_edges(),
                self.node_ids(),
                (#[trigger] ordered@[k]).0,
            ) by {
                if k < ordered@.len() - 1 {
                    assert(ordered@[k] == pre_ordered[k]);
                    assert(feeds_destination(self.spec_edges(), self.node_ids(), pre_ordered[k].0));
                }
            };
            // the topological property, in the absence of rendered cycles
            if cycle_free_into(self.spec_edges(), self.node_ids()) {
                assert forall|j: int, p: u64|
                    0 <= j < ordered@.len() && #[trigger] edge_in(self.spec_edges(), p, ordered@[j].0)
                        && self.node_ids().contains(p) implies exists|i: int|
                    0 <= i < j && ordered@[i].0 == p by {
                    if j < ordered@.len() - 1 {
                        assert(pre_ordered[j] == ordered@[j]);
                        assert(topo_sorted(self.spec_edges(), self.node_ids(), pre_ordered));
                        let i = choose|i: int| 0 <= i < j && pre_ordered[i].0 == p;
                        assert(ordered@[i].0 == p);
                    } else {
                        assert(contains_id(pre_ordered, p));
                        let i = choose|i: int| 0 <= i < pre_ordered.len() && pre_ordered[i].0 == p;
                        assert(ordered@[i].0 == p);
                    }
                };
            }
        }
    }

    /// Rebuild the cached render order: a depth-first walk upstream from
    /// the destination node, emitting each node after everything that
    /// feeds it.
    fn order_nodes(&mut self)
        requires
            old(self).wf(),
        ensures
            final(self).wf(),
            final(self).spec_nodes() == old(self).spec_nodes(),
            final(self).spec_edges() == old(self).spec_edges(),
            final(self).contains_node(0) ==> contains_id(final(self).spec_ordered(), 0),
            forall|id: u64|
                #[trigger] contains_id(final(self).spec_ordered(), id)
                    <==> (final(self).contains_node(id) && feeds_destination(
                    final(self).spec_edges(),
                    final(self).node_ids(),
                    id,
                )),
            cycle_free_into(final(self).spec_edges(), final(self).node_ids()) ==> topo_sorted(
                final(self).spec_edges(),
                final(self).node_ids(),
                final(self).spec_ordered(),
            ),
    {
        let mut marked: Vec<NodeIndex> = Vec::new();
        let mut ordered: Vec<NodeIndex> = Vec::new();
        proof {
            assert(self.visit_inv(marked@, ordered@, Seq::empty())) by {
                assert forall|id: u64| #[trigger] contains_id(marked@, id) implies contains_id(
                    ordered@,
                    id,
                ) || Seq::<u64>::empty().contains(id) by {}
            }
        }
        self.visit(NodeIndex(0), &mut marked, &mut ordered, Ghost(Seq::empty()));
        proof {
            // with the visit stack empty, the marked and placed sets agree
            assert forall|id: u64| #[trigger] contains_id(marked@, id) implies contains_id(
                ordered@,
                id,
            ) by {
                assert(contains_id(ordered@, id) || Seq::<u64>::empty().contains(id));
            };
            // the order holds exactly the stored nodes feeding the
            // destination
            assert forall|id: u64| #[trigger] contains_id(ordered@, id) implies self.contains_node(
                id,
            ) && feeds_destination(self.spec_edges(), self.node_ids(), id) by {
                let w = choose|w: int| 0 <= w < ordered@.len() && ordered@[w].0 == id;
                assert(contains_id(marked@, ordered@[w].0));
                let v = choose|v: int| 0 <= v < marked@.len() && marked@[v].0 == id;
                assert(self.contains_node(marked@[v].0));
                assert(feeds_destination(self.spec_edges(), self.node_ids(), ordered@[w].0));
            };
            assert forall|id: u64|
                self.contains_node(id) && feeds_destination(
                    self.spec_edges(),
                    self.node_ids(),
                    id,
                ) implies #[trigger] contains_id(ordered@, id) by {
                let p = choose|p: Seq<u64>|
                    {
                        &&& p.len() >= 1
                        &&& p[0] == id
                        &&& p[p.len() - 1] == 0
                        &&& #[trigger] is_edge_path(self.spec_edges(), p)
                        &&& forall|i: int|
                            0 <= i < p.len() ==> self.node_ids().contains(#[trigger] p[i])
                    };
                assert(self.node_ids().contains(p[p.len() - 1]));
                assert(self.contains_node(0));
                assert(contains_id(marked@, 0));
                assert(contains_id(ordered@, 0));
                assert forall|j: int, q: u64|
                    0 <= j < ordered@.len() && #[trigger] edge_in(
                        self.spec_edges(),
                        q,
                        ordered@[j].0,
                    ) && self.node_ids().contains(q) implies contains_id(ordered@, q) by {
                    assert(self.contains_node(q));
                    assert(contains_id(marked@, q));
                };
                lemma_path_in_order(self.spec_edges(), self.node_ids(), ordered@, p, 0);
            };
        }
        self.ordered = ordered;
    }
}

} // verus!

verus! {

/// The predicate an edge must meet to survive a disconnect of
/// `source` (to `dest`, when one is given).
pub open spec fn keep_pred(source: NodeIndex, dest: Option<NodeIndex>) -> spec_fn(Edge) -> bool {
    |e: Edge| !(e.src.0 == source.0 && (dest matches Some(d) ==> e.dst.0 == d.0))
}

/// The edge list with every connection from `source` (to `dest`, when
/// one is given) removed, in order.
pub open spec fn edges_without(edges: Seq<Edge>, source: NodeIndex, dest: Option<NodeIndex>) -> Seq<
    Edge,
> {
    edges.filter(keep_pred(source, dest))
}

/// The sources of the edges that feed `node`, in edge order.
/// The predicate selecting the edges that feed `node`.
pub open spec fn feeds_pred(node: NodeIndex) -> spec_fn(Edge) -> bool {
    |e: Edge| e.dst.0 == node.0
}

pub open spec fn children_of(edges: Seq<Edge>, node: NodeIndex) -> Seq<NodeIndex> {
    edges.filter(feeds_pred(node)).map_values(|e: Edge| e.src)
}

impl Graph {
    /// Set up a graph holding the destination root node under id `0`,
    /// with one input and one output port.
    pub fn new(root: Processor, channel_config: ChannelConfig) -> (r: Self)
        requires
            channel_config.spec_count() >= 1,
            processor_wf(root),
        ensures
            r.wf(),
            r.contains_node(0),
            r.spec_nodes().len() == 1,
            r.node_of(0).processor == root,
            r.node_of(0).inputs == 1,
            r.node_of(0).outputs == 1,
            r.node_of(0).channel_config == channel_config,
            r.node_of(0).free_when_finished == false,
            r.node_of(0).quanta_processed == 0,
            r.node_of(0).buffers@.len() == 1,
            r.spec_edges().len() == 0,
            r.spec_ordered() =~= seq![NodeIndex(0)],
    {
        let mut graph = Graph { nodes: Vec::new(), edges: Vec::new(), ordered: Vec::new() };
        graph.ordered.push(NodeIndex(0));
        let mut buffers: Vec<AudioBuffer> = Vec::new();
        buffers.push(AudioBuffer::new(1, BUFFER_SIZE as usize, SampleRate(0)));
        let node = Node {
            processor: root,
            buffers,
            inputs: 1,
            outputs: 1,
            channel_config,
            free_when_finished: false,
            quanta_processed: 0,
        };
        graph.nodes.push(NodeEntry { id: 0, node });
        proof {
            assert(graph.node_ids()[0] == 0);
            assert(graph.contains_node(0));
            assert(graph.index_of(0) == 0);
        }
        graph
    }

    /// Store (or replace) the node with the given id: a fresh record
    /// with silent mono output buffers and zeroed bookkeeping.  The
    /// cached order is left alone: an isolated node need not render.
    #[verifier::spinoff_prover]
    pub fn add_node(
        &mut self,
        index: NodeIndex,
        processor: Processor,
        inputs: usize,
        outputs: usize,
        channel_config: ChannelConfig,
    )
        requires
            old(self).wf(),
            channel_config.spec_count() >= 1,
            processor_wf(processor),
        ensures
            final(self).wf(),
            final(self).spec_edges() == old(self).spec_edges(),
            final(self).spec_ordered() == old(self).spec_ordered(),
            final(self).contains_node(index.0),
            forall|id: u64|
                id != index.0 ==> (#[trigger] final(self).contains_node(id) == old(
                    self,
                ).contains_node(id)),
            forall|id: u64|
                id != index.0 && old(self).contains_node(id) ==> (#[trigger] final(self).node_of(
                    id,
                )) == old(self).node_of(id),
            final(self).node_of(index.0).processor == processor,
            final(self).node_of(index.0).inputs == inputs,
            final(self).node_of(index.0).outputs == outputs,
            final(self).node_of(index.0).channel_config == channel_config,
            final(self).node_of(index.0).free_when_finished == false,
            final(self).node_of(index.0).quanta_processed == 0,
            final(self).node_of(index.0).buffers@.len() == outputs,
            forall|k: int|
                0 <= k < outputs ==> (#[trigger] final(self).node_of(index.0).buffers@[k])@
                    =~= seq![crate::buffer::silent_channel(BUFFER_SIZE as nat)],
    {
        let mut buffers: Vec<AudioBuffer> = Vec::new();
        let mut k: usize = 0;
        while k < outputs
            invariant
                k <= outputs,
                buffers@.len() == k,
                forall|l: int|
                    0 <= l < k ==> {
                        &&& (#[trigger] buffers@[l]).wf()
                        &&& buffers@[l]@.len() == 1
                        &&& buffers@[l].spec_sample_len() == BUFFER_SIZE
                        &&& buffers@[l]@ =~= seq![
                            crate::buffer::silent_channel(BUFFER_SIZE as nat),
                        ]
                    },
            decreases outputs - k,
        {
            let b = AudioBuffer::new(1, BUFFER_SIZE as usize, SampleRate(0));
            proof {
                assert(b@[0] =~= crate::buffer::silent_channel(BUFFER_SIZE as nat));
                assert(b@ =~= seq![crate::buffer::silent_channel(BUFFER_SIZE as nat)]);
            }
            buffers.push(b);
            k += 1;
        }
        let node = Node {
            processor,
            buffers,
            inputs,
            outputs,
            channel_config,
            free_when_finished: false,
            quanta_processed: 0,
        };
        let ghost pre = *self;
        match self.find_node(index.0) {
            Some(pos) => {
                self.nodes.set(pos, NodeEntry { id: index.0, node });
                proof {
                    assert(self.node_ids() =~= pre.node_ids());
                    assert forall|k: int|
                        0 <= k < pre.spec_nodes().len() && k != pos implies (
                    #[trigger] pre.spec_nodes()[k]).id != index.0 by {
                        if k < pos as int {
                            assert(pre.spec_nodes()[k].id != pre.spec_nodes()[pos as int].id);
                        } else {
                            assert(pre.spec_nodes()[pos as int].id != pre.spec_nodes()[k].id);
                        }
                    };
                    self.lemma_same_index(pre, index.0, pos as int);
                    assert(node_wf(self.spec_nodes()[pos as int].node));
                    assert forall|k: int| 0 <= k < self.spec_nodes().len() implies node_wf(
                        (#[trigger] self.spec_nodes()[k]).node,
                    ) by {
                        if k != pos as int {
                            assert(self.spec_nodes()[k] == pre.spec_nodes()[k]);
                        }
                    };
                    assert forall|k: int| 0 <= k < self.spec_ordered().len() implies self
                        .contains_node((#[trigger] self.spec_ordered()[k]).0) by {
                        assert(pre.contains_node(pre.spec_ordered()[k].0));
                        if self.spec_ordered()[k].0 != index.0 {
                            assert(self.contains_node(self.spec_ordered()[k].0) == pre
                                .contains_node(self.spec_ordered()[k].0));
                        }
                    };
                    assert(self.spec_edges() == pre.spec_edges());
                    assert forall|k: int, l: int|
                        0 <= k < l < self.spec_edges().len() implies (#[trigger] self.spec_edges()[k]) != (
                        #[trigger] self.spec_edges()[l]) by {
                        assert(pre.spec_edges()[k] != pre.spec_edges()[l]);
                    };
                    assert(distinct_ids(self.spec_ordered()));
                    assert(self.wf());
                }
            },
            None => {
                self.nodes.push(NodeEntry { id: index.0, node });
                proof {
                    let pos = self.spec_nodes().len() - 1;
                    assert(self.spec_nodes()[pos].id == index.0);
                    assert(self.node_ids()[pos] == index.0);
                    assert forall|k: int|
                        0 <= k < pre.spec_nodes().len() implies (
                    #[trigger] pre.spec_nodes()[k]).id != index.0 by {
                        if pre.spec_nodes()[k].id == index.0 {
                            assert(pre.node_ids()[k] == index.0);
                            assert(pre.contains_node(index.0));
                        }
                    };
                    assert forall|id: u64| id != index.0 implies #[trigger] self.contains_node(id)
                        == pre.contains_node(id) by {
                        if pre.contains_node(id) {
                            let w = choose|w: int|
                                0 <= w < pre.node_ids().len() && pre.node_ids()[w] == id;
                            assert(self.node_ids()[w] == id);
                        } else if self.contains_node(id) {
                            let w = choose|w: int|
                                0 <= w < self.node_ids().len() && self.node_ids()[w] == id;
                            assert(w < pos);
                            assert(pre.node_ids()[w] == id);
                        }
                    };
                    self.lemma_same_index(pre, index.0, pos);
                    assert(node_wf(self.spec_nodes()[pos].node));
                    assert forall|k: int| 0 <= k < self.spec_nodes().len() implies node_wf(
                        (#[trigger] self.spec_nodes()[k]).node,
                    ) by {
                        if k != pos {
                            assert(self.spec_nodes()[k] == pre.spec_nodes()[k]);
                        }
                    };
                    assert forall|k: int| 0 <= k < self.spec_ordered().len() implies self
                        .contains_node((#[trigger] self.spec_ordered()[k]).0) by {
                        assert(pre.contains_node(pre.spec_ordered()[k].0));
                        if self.spec_ordered()[k].0 != index.0 {
                            assert(self.contains_node(self.spec_ordered()[k].0) == pre
                                .contains_node(self.spec_ordered()[k].0));
                        }
                    };
                    assert(self.spec_edges() == pre.spec_edges());
                    assert forall|k: int, l: int|
                        0 <= k < l < self.spec_edges().len() implies (#[trigger] self.spec_edges()[k]) != (
                        #[trigger] self.spec_edges()[l]) by {
                        assert(pre.spec_edges()[k] != pre.spec_edges()[l]);
                    };
                    assert(distinct_ids(self.spec_ordered()));
                    assert(self.wf());
                }
            },
        }
    }

    /// After an update that keeps every other entry in place, lookups
    /// of unaffected ids agree with the previous table, and the updated
    /// id resolves to its position.
    proof fn lemma_same_index(&self, pre: Graph, id0: u64, pos: int)
        requires
            pre.wf(),
            self.spec_nodes().len() == pre.spec_nodes().len() || self.spec_nodes().len() == pre.spec_nodes().len() + 1,
            0 <= pos < self.spec_nodes().len(),
            self.spec_nodes()[pos].id == id0,
            self.spec_nodes().len() == pre.spec_nodes().len() ==> pos < pre.spec_nodes().len()
                && pre.spec_nodes()[pos].id == id0,
            self.spec_nodes().len() == pre.spec_nodes().len() + 1 ==> pos == pre.spec_nodes().len(),
            forall|k: int|
                0 <= k < pre.spec_nodes().len() && k != pos ==> #[trigger] self.spec_nodes()[k]
                    == pre.spec_nodes()[k],
            forall|k: int|
                0 <= k < pre.spec_nodes().len() && k != pos ==> (#[trigger] pre.spec_nodes()[k]).id
                    != id0,
        ensures
            forall|k: int, l: int|
                0 <= k < l < self.spec_nodes().len() ==> (#[trigger] self.spec_nodes()[k]).id != (
                #[trigger] self.spec_nodes()[l]).id,
            self.index_of(id0) == pos,
            self.node_of(id0) == self.spec_nodes()[pos].node,
            forall|id: u64|
                id != id0 && pre.contains_node(id) ==> (#[trigger] self.node_of(id)) == pre.node_of(
                    id,
                ),
    {
        assert forall|k: int, l: int| 0 <= k < l < self.spec_nodes().len() implies (
        #[trigger] self.spec_nodes()[k]).id != (#[trigger] self.spec_nodes()[l]).id by {
            if k != pos && l != pos {
                assert(self.spec_nodes()[k] == pre.spec_nodes()[k]);
                assert(self.spec_nodes()[l] == pre.spec_nodes()[l]);
                assert(pre.spec_nodes()[k].id != pre.spec_nodes()[l].id);
            } else if k == pos {
                assert(self.spec_nodes()[l] == pre.spec_nodes()[l]);
                assert(pre.spec_nodes()[l].id != id0);
            } else {
                assert(self.spec_nodes()[k] == pre.spec_nodes()[k]);
                assert(pre.spec_nodes()[k].id != id0);
            }
        };
        assert(self.index_of(id0) == pos) by {
            assert(self.spec_nodes()[pos].id == id0);
            let w = self.index_of(id0);
            assert(0 <= w < self.spec_nodes().len() && self.spec_nodes()[w].id == id0);
            if w < pos {
                assert(self.spec_nodes()[w].id != self.spec_nodes()[pos].id);
            } else if pos < w {
                assert(self.spec_nodes()[pos].id != self.spec_nodes()[w].id);
            }
        };
        assert forall|id: u64| id != id0 && pre.contains_node(id) implies (
        #[trigger] self.node_of(id)) == pre.node_of(id) by {
            let w0 = choose|w: int|
                0 <= w < pre.node_ids().len() && pre.node_ids()[w] == id;
            assert(pre.spec_nodes()[w0].id == id);
            let w = pre.index_of(id);
            assert(0 <= w < pre.spec_nodes().len() && pre.spec_nodes()[w].id == id);
            assert(w != pos) by {
                if self.spec_nodes().len() == pre.spec_nodes().len() {
                    assert(pre.spec_nodes()[pos].id == id0);
                }
            }
            assert(self.spec_nodes()[w] == pre.spec_nodes()[w]);
            assert(self.index_of(id) == w) by {
                let v = self.index_of(id);
                assert(0 <= v < self.spec_nodes().len() && self.spec_nodes()[v].id == id);
                if v < w {
                    assert(self.spec_nodes()[v].id != self.spec_nodes()[w].id);
                } else if w < v {
                    assert(self.spec_nodes()[w].id != self.spec_nodes()[v].id);
                }
            }
        };
    }

    /// Whether the edge list already holds this exact connection.
    fn edge_contained(&self, e: Edge) -> (r: bool)
        ensures
            r == self.spec_edges().contains(e),
    {
        let ne = self.edges.len();
        let mut f: usize = 0;
        while f < ne
            invariant
                f <= ne,
                ne == self.spec_edges().len(),
                forall|l: int| 0 <= l < f ==> (#[trigger] self.spec_edges()[l]) != e,
            decreases ne - f,
        {
            if self.edges[f] == e {
                proof {
                    assert(self.spec_edges()[f as int] == e);
                }
                return true;
            }
            f += 1;
        }
        false
    }

    /// Connect an output port of `source` to an input port of `dest`;
    /// adding a connection twice has no further effect.  The cached
    /// order is rebuilt.
    pub fn add_edge(&mut self, source: (NodeIndex, u32), dest: (NodeIndex, u32))
        requires
            old(self).wf(),
        ensures
            final(self).wf(),
            final(self).spec_nodes() == old(self).spec_nodes(),
            final(self).spec_edges() == (if old(self).spec_edges().contains(
                Edge { src: source.0, src_port: source.1, dst: dest.0, dst_port: dest.1 },
            ) {
                old(self).spec_edges()
            } else {
                old(self).spec_edges().push(
                    Edge { src: source.0, src_port: source.1, dst: dest.0, dst_port: dest.1 },
                )
            }),
            final(self).contains_node(0) ==> contains_id(final(self).spec_ordered(), 0),
            forall|id: u64|
                #[trigger] contains_id(final(self).spec_ordered(), id)
                    <==> (final(self).contains_node(id) && feeds_destination(
                    final(self).spec_edges(),
                    final(self).node_ids(),
                    id,
                )),
            cycle_free_into(final(self).spec_edges(), final(self).node_ids()) ==> topo_sorted(
                final(self).spec_edges(),
                final(self).node_ids(),
                final(self).spec_ordered(),
            ),
    {
        let e = Edge { src: source.0, src_port: source.1, dst: dest.0, dst_port: dest.1 };
        if !self.edge_contained(e) {
            proof {
                assert(forall|l: int|
                    0 <= l < old(self).spec_edges().len() ==> (#[trigger] old(
                        self,
                    ).spec_edges()[l]) != e);
            }
            self.edges.push(e);
        }
        self.order_nodes();
    }
}

} // verus!

verus! {

impl Graph {
    /// Remove from the edge list every connection whose source is
    /// `drop_src` and, when `drop_dst` is given, whose destination is
    /// that node; shared helper of the disconnect operations.  Keeps
    /// the relative order of the surviving edges and rebuilds the
    /// cached order.
    fn retain_edges(&mut self, drop_src: NodeIndex, drop_dst: Option<NodeIndex>)
        requires
            old(self).wf(),
        ensures
            final(self).wf(),
            final(self).spec_nodes() == old(self).spec_nodes(),
            final(self).spec_edges() == edges_without(old(self).spec_edges(), drop_src, drop_dst),
            final(self).contains_node(0) ==> contains_id(final(self).spec_ordered(), 0),
            forall|id: u64|
                #[trigger] contains_id(final(self).spec_ordered(), id)
                    <==> (final(self).contains_node(id) && feeds_destination(
                    final(self).spec_edges(),
                    final(self).node_ids(),
                    id,
                )),
            cycle_free_into(final(self).spec_edges(), final(self).node_ids()) ==> topo_sorted(
                final(self).spec_edges(),
                final(self).node_ids(),
                final(self).spec_ordered(),
            ),
    {
        let ghost pred = keep_pred(drop_src, drop_dst);
        let ne = self.edges.len();
        let mut kept: Vec<Edge> = Vec::new();
        let mut f: usize = 0;
        proof {
            reveal(Seq::filter);
            assert(self.spec_edges().take(0) =~= Seq::<Edge>::empty());
            assert(kept@ == self.spec_edges().take(0).filter(pred));
        }
        while f < ne
            invariant
                f <= ne,
                ne == self.spec_edges().len(),
                *self == *old(self),
                self.wf(),
                pred == keep_pred(drop_src, drop_dst),
                kept@ == self.spec_edges().take(f as int).filter(pred),
                forall|k: int|
                    0 <= k < kept@.len() ==> exists|g: int|
                        0 <= g < f && self.spec_edges()[g] == #[trigger] kept@[k],
            decreases ne - f,
        {
            let e = self.edges[f];
            let matches_src = e.src.0 == drop_src.0;
            let matches_dst = match drop_dst {
                Some(d) => e.dst.0 == d.0,
                None => true,
            };
            let ghost taken = self.spec_edges().take(f as int);
            proof {
                reveal(Seq::filter);
                assert(self.spec_edges().take(f + 1) =~= taken.push(e));
                assert(taken.push(e).drop_last() =~= taken);
                assert(taken.push(e).last() == e);
            }
            if !(matches_src && matches_dst) {
                proof {
                    assert(pred(e));
                }
                kept.push(e);
                proof {
                    assert(kept@ =~= taken.filter(pred).push(e));
                    assert forall|k: int| 0 <= k < kept@.len() implies exists|g: int|
                        0 <= g < f + 1 && self.spec_edges()[g] == #[trigger] kept@[k] by {
                        if k == kept@.len() - 1 {
                            assert(self.spec_edges()[f as int] == kept@[k]);
                        } else {
                            let g = choose|g: int|
                                0 <= g < f && self.spec_edges()[g] == kept@.drop_last()[k];
                            assert(self.spec_edges()[g] == kept@[k]);
                        }
                    };
                }
            } else {
                proof {
                    assert(!pred(e));
                    assert(kept@ == taken.push(e).filter(pred));
                }
            }
            f += 1;
        }
        proof {
            assert(self.spec_edges().take(ne as int) =~= self.spec_edges());
        }
        let ghost pre = *self;
        self.edges = kept;
        proof {
            assert(pre.spec_edges().filter(pred).len() <= pre.spec_edges().len()) by {
                pre.spec_edges().filter_lemma(pred);
            }
            // the survivors are pairwise distinct: a duplicate among them
            // would be a duplicate in the original list
            assert forall|k: int, l: int| 0 <= k < l < self.spec_edges().len() implies (
            #[trigger] self.spec_edges()[k]) != (#[trigger] self.spec_edges()[l]) by {
                lemma_filter_distinct(pre.spec_edges(), pred, k, l);
            };
            assert forall|k: int| 0 <= k < self.spec_ordered().len() implies self.contains_node(
                (#[trigger] self.spec_ordered()[k]).0,
            ) by {
                assert(pre.contains_node(pre.spec_ordered()[k].0));
            };
        }
        self.order_nodes();
    }

    /// Remove every connection from `source` to `dest`, then rebuild
    /// the cached order.
    pub fn remove_edge(&mut self, source: NodeIndex, dest: NodeIndex)
        requires
            old(self).wf(),
        ensures
            final(self).wf(),
            final(self).spec_nodes() == old(self).spec_nodes(),
            final(self).spec_edges() == edges_without(
                old(self).spec_edges(),
                source,
                Some(dest),
            ),
            final(self).contains_node(0) ==> contains_id(final(self).spec_ordered(), 0),
            forall|id: u64|
                #[trigger] contains_id(final(self).spec_ordered(), id)
                    <==> (final(self).contains_node(id) && feeds_destination(
                    final(self).spec_edges(),
                    final(self).node_ids(),
                    id,
                )),
            cycle_free_into(final(self).spec_edges(), final(self).node_ids()) ==> topo_sorted(
                final(self).spec_edges(),
                final(self).node_ids(),
                final(self).spec_ordered(),
            ),
    {
        self.retain_edges(source, Some(dest));
    }

    /// Remove every connection leaving `source`, then rebuild the
    /// cached order.
    pub fn remove_edges_from(&mut self, source: NodeIndex)
        requires
            old(self).wf(),
        ensures
            final(self).wf(),
            final(self).spec_nodes() == old(self).spec_nodes(),
            final(self).spec_edges() == edges_without(old(self).spec_edges(), source, None),
            final(self).contains_node(0) ==> contains_id(final(self).spec_ordered(), 0),
            forall|id: u64|
                #[trigger] contains_id(final(self).spec_ordered(), id)
                    <==> (final(self).contains_node(id) && feeds_destination(
                    final(self).spec_edges(),
                    final(self).node_ids(),
                    id,
                )),
            cycle_free_into(final(self).spec_edges(), final(self).node_ids()) ==> topo_sorted(
                final(self).spec_edges(),
                final(self).node_ids(),
                final(self).spec_ordered(),
            ),
    {
        self.retain_edges(source, None);
    }

    /// The sources of the edges that feed `node`, in edge order.
    pub fn children(&self, node: NodeIndex) -> (r: Vec<NodeIndex>)
        ensures
            r@ == children_of(self.spec_edges(), node),
    {
        let ghost pred = feeds_pred(node);
        let ne = self.edges.len();
        let mut r: Vec<NodeIndex> = Vec::new();
        let mut f: usize = 0;
        proof {
            reveal(Seq::filter);
            assert(self.spec_edges().take(0) =~= Seq::<Edge>::empty());
            assert(r@ =~= self.spec_edges().take(0).filter(pred).map_values(|e: Edge| e.src));
        }
        while f < ne
            invariant
                f <= ne,
                ne == self.spec_edges().len(),
                pred == feeds_pred(node),
                r@ == self.spec_edges().take(f as int).filter(pred).map_values(
                    |e: Edge| e.src,
                ),
            decreases ne - f,
        {
            let e = self.edges[f];
            let ghost taken = self.spec_edges().take(f as int);
            proof {
                reveal(Seq::filter);
                assert(self.spec_edges().take(f + 1) =~= taken.push(e));
                assert(taken.push(e).drop_last() =~= taken);
                assert(taken.push(e).last() == e);
            }
            if e.dst.0 == node.0 {
                r.push(e.src);
                proof {
                    assert(pred(e));
                    assert(taken.push(e).filter(pred) == taken.filter(pred).push(e));
                    assert(r@ =~= taken.push(e).filter(pred).map_values(|x: Edge| x.src));
                }
            } else {
                proof {
                    assert(!pred(e));
                    assert(taken.push(e).filter(pred) == taken.filter(pred));
                }
            }
            f += 1;
        }
        proof {
            assert(self.spec_edges().take(ne as int) =~= self.spec_edges());
        }
        r
    }

    /// Mark the node with the given id to be reclaimed once it has no
    /// work left; ids without a stored node are ignored.
    pub fn mark_free_when_finished(&mut self, id: u64)
        requires
            old(self).wf(),
        ensures
            final(self).wf(),
            final(self).spec_edges() == old(self).spec_edges(),
            final(self).spec_ordered() == old(self).spec_ordered(),
            final(self).spec_nodes().len() == old(self).spec_nodes().len(),
            forall|k: int|
                0 <= k < old(self).spec_nodes().len() ==> (#[trigger] final(self).spec_nodes()[
                    k
                ]).id == old(self).spec_nodes()[k].id,
            forall|k: int|
                0 <= k < old(self).spec_nodes().len() && old(self).spec_nodes()[k].id != id ==> (
                #[trigger] final(self).spec_nodes()[k]) == old(self).spec_nodes()[k],
            old(self).contains_node(id) ==> {
                &&& final(self).node_of(id).free_when_finished == true
                &&& final(self).node_of(id).processor == old(self).node_of(id).processor
                &&& final(self).node_of(id).buffers == old(self).node_of(id).buffers
                &&& final(self).node_of(id).inputs == old(self).node_of(id).inputs
                &&& final(self).node_of(id).outputs == old(self).node_of(id).outputs
                &&& final(self).node_of(id).channel_config == old(self).node_of(id).channel_config
                &&& final(self).node_of(id).quanta_processed == old(self).node_of(
                    id,
                ).quanta_processed
            },
            !old(self).contains_node(id) ==> *final(self) == *old(self),
    {
        let ghost pre = *self;
        match self.find_node(id) {
            Some(pos) => {
                let mut entry = self.nodes.remove(pos);
                entry.node.free_when_finished = true;
                self.nodes.insert(pos, entry);
                proof {
                    assert forall|k: int| 0 <= k < self.spec_nodes().len() && k != pos as int
                        implies #[trigger] self.spec_nodes()[k] == pre.spec_nodes()[k] by {
                        if k < pos as int {
                            assert(self.spec_nodes()[k] == pre.spec_nodes().remove(
                                pos as int,
                            ).insert(pos as int, self.spec_nodes()[pos as int])[k]);
                        }
                    };
                    assert(self.spec_nodes() =~= pre.spec_nodes().update(
                        pos as int,
                        self.spec_nodes()[pos as int],
                    ));
                    assert(self.node_ids() =~= pre.node_ids());
                    assert forall|k: int|
                        0 <= k < pre.spec_nodes().len() && k != pos as int implies (
                    #[trigger] pre.spec_nodes()[k]).id != id by {
                        if k < pos as int {
                            assert(pre.spec_nodes()[k].id != pre.spec_nodes()[pos as int].id);
                        } else {
                            assert(pre.spec_nodes()[pos as int].id != pre.spec_nodes()[k].id);
                        }
                    };
                    self.lemma_same_index(pre, id, pos as int);
                    assert forall|k: int| 0 <= k < self.spec_nodes().len() implies node_wf(
                        (#[trigger] self.spec_nodes()[k]).node,
                    ) by {
                        if k != pos as int {
                            assert(self.spec_nodes()[k] == pre.spec_nodes()[k]);
                        } else {
                            assert(node_wf(pre.spec_nodes()[k].node));
                        }
                    };
                    assert forall|k: int| 0 <= k < self.spec_ordered().len() implies self
                        .contains_node((#[trigger] self.spec_ordered()[k]).0) by {
                        assert(pre.contains_node(pre.spec_ordered()[k].0));
                    };
                    assert forall|k: int, l: int|
                        0 <= k < l < self.spec_edges().len() implies (
                    #[trigger] self.spec_edges()[k]) != (#[trigger] self.spec_edges()[l]) by {
                        assert(pre.spec_edges()[k] != pre.spec_edges()[l]);
                    };
                }
            },
            None => {},
        }
    }
}

/// Positions of a filtered, duplicate-free sequence hold distinct
/// elements.
proof fn lemma_filter_distinct(s: Seq<Edge>, pred: spec_fn(Edge) -> bool, k: int, l: int)
    requires
        forall|a: int, b: int| 0 <= a < b < s.len() ==> (#[trigger] s[a]) != (#[trigger] s[b]),
        0 <= k < l < s.filter(pred).len(),
    ensures
        s.filter(pred)[k] != s.filter(pred)[l],
    decreases s.len(),
{
    reveal(Seq::filter);
    s.filter_lemma(pred);
    if s.len() > 0 {
        let butlast = s.drop_last();
        assert(forall|a: int, b: int|
            0 <= a < b < butlast.len() ==> (#[trigger] butlast[a]) != (#[trigger] butlast[b]));
        if pred(s.last()) {
            assert(s.filter(pred) == butlast.filter(pred).push(s.last()));
            if l < s.filter(pred).len() - 1 {
                lemma_filter_distinct(butlast, pred, k, l);
            } else {
                // the last filtered element is s.last(); the k-th comes
                // from a strictly earlier position of s
                let x = butlast.filter(pred)[k];
                butlast.filter_lemma(pred);
                assert(butlast.filter(pred).contains(x)) by {
                    assert(butlast.filter(pred)[k] == x);
                }
                lemma_filter_member_index(butlast, pred, k);
                let w = choose|w: int| 0 <= w < butlast.len() && butlast[w] == x;
                assert(s[w] == butlast[w]);
                assert(s[w] != s[s.len() - 1]);
            }
        } else {
            assert(s.filter(pred) == butlast.filter(pred));
            lemma_filter_distinct(butlast, pred, k, l);
        }
    }
}

/// Every element of a filtered sequence occurs in the original.
proof fn lemma_filter_member_index(s: Seq<Edge>, pred: spec_fn(Edge) -> bool, k: int)
    requires
        0 <= k < s.filter(pred).len(),
    ensures
        exists|w: int| 0 <= w < s.len() && s[w] == s.filter(pred)[k],
    decreases s.len(),
{
    reveal(Seq::filter);
    s.filter_lemma(pred);
    if s.len() > 0 {
        let butlast = s.drop_last();
        if pred(s.last()) {
            assert(s.filter(pred) == butlast.filter(pred).push(s.last()));
            if k < s.filter(pred).len() - 1 {
                lemma_filter_member_index(butlast, pred, k);
                let w = choose|w: int| 0 <= w < butlast.len() && butlast[w] == s.filter(pred)[k];
                assert(s[w] == s.filter(pred)[k]);
            } else {
                assert(s[s.len() - 1] == s.filter(pred)[k]);
            }
        } else {
            assert(s.filter(pred) == butlast.filter(pred));
            lemma_filter_member_index(butlast, pred, k);
            let w = choose|w: int| 0 <= w < butlast.len() && butlast[w] == s.filter(pred)[k];
            assert(s[w] == s.filter(pred)[k]);
        }
    }
}

} // verus!

verus! {

/// One more processed quantum, saturating at the counter's limit.
pub open spec fn bump(q: u64) -> u64 {
    if q < u64::MAX {
        (q + 1) as u64
    } else {
        q
    }
}

/// Whether two node records agree on everything the render pass leaves
/// alone: declared ports, channel settings and the reclaim flag.
pub open spec fn same_shape(a: Node, b: Node) -> bool {
    &&& a.inputs == b.inputs
    &&& a.outputs == b.outputs
    &&& a.channel_config == b.channel_config
    &&& a.free_when_finished == b.free_when_finished
}

impl Graph {
    /// The node table alone is well formed: unique ids, well-formed
    /// records.
    pub open spec fn nodes_wf(&self) -> bool {
        &&& forall|k: int, l: int|
            0 <= k < l < self.spec_nodes().len() ==> (#[trigger] self.spec_nodes()[k]).id != (
            #[trigger] self.spec_nodes()[l]).id
        &&& forall|k: int|
            0 <= k < self.spec_nodes().len() ==> node_wf((#[trigger] self.spec_nodes()[k]).node)
    }

    /// Lookups resolve a stored position to itself.
    proof fn lemma_index_at(&self, pos: int)
        requires
            self.nodes_wf(),
            0 <= pos < self.spec_nodes().len(),
        ensures
            self.contains_node(self.spec_nodes()[pos].id),
            self.index_of(self.spec_nodes()[pos].id) == pos,
            self.node_of(self.spec_nodes()[pos].id) == self.spec_nodes()[pos].node,
    {
        let id = self.spec_nodes()[pos].id;
        assert(self.node_ids()[pos] == id);
        assert(self.contains_node(id));
        let w = self.index_of(id);
        assert(0 <= w < self.spec_nodes().len() && self.spec_nodes()[w].id == id);
        if w < pos {
            assert(self.spec_nodes()[w].id != self.spec_nodes()[pos].id);
        } else if pos < w {
            assert(self.spec_nodes()[pos].id != self.spec_nodes()[w].id);
        }
    }

    /// The mixed input at port `port` of node `dst` after folding the
    /// first `upto` edges: starting from silence at `channels` channels,
    /// each matching connection's source buffer is summed in under
    /// `interp`.  A connection is skipped when it targets the parameter
    /// port, its source is not stored, or its output port is out of
    /// range — such a connection contributes silence.
    pub open spec fn input_fold(
        &self,
        upto: int,
        dst: u64,
        port: u32,
        channels: nat,
        interp: ChannelInterpretation,
    ) -> Seq<Seq<i64>>
        decreases upto,
    {
        if upto <= 0 {
            Seq::new(channels, |c: int| silent_channel(BUFFER_SIZE as nat))
        } else {
            let prev = self.input_fold(upto - 1, dst, port, channels, interp);
            let e = self.spec_edges()[upto - 1];
            if e.dst.0 == dst && e.dst_port == port && e.dst_port != MAX_PORT && self.contains_node(
                e.src.0,
            ) && e.src_port < self.node_of(e.src.0).buffers@.len() {
                add_spec(
                    prev,
                    self.node_of(e.src.0).buffers@[e.src_port as int]@,
                    BUFFER_SIZE as nat,
                    interp,
                )
            } else {
                prev
            }
        }
    }

    /// Mix everything feeding port `port` of node `dst` into one buffer
    /// of at least `channels` channels at `BUFFER_SIZE` samples.
    fn collect_input(
        &self,
        dst: u64,
        port: u32,
        channels: usize,
        interp: ChannelInterpretation,
        sample_rate: SampleRate,
    ) -> (r: AudioBuffer)
        requires
            self.nodes_wf(),
            channels >= 1,
        ensures
            r.wf(),
            r@.len() >= 1,
            r.spec_sample_len() == BUFFER_SIZE,
            r.rate() == sample_rate,
            r@ == self.input_fold(
                self.spec_edges().len() as int,
                dst,
                port,
                channels as nat,
                interp,
            ),
    {
        let mut buf = AudioBuffer::new(channels, BUFFER_SIZE as usize, sample_rate);
        proof {
            assert(buf@ =~= self.input_fold(0, dst, port, channels as nat, interp)) by {
                assert forall|c: int| 0 <= c < channels implies #[trigger] buf@[c]
                    == silent_channel(BUFFER_SIZE as nat) by {
                    assert(buf@[c] =~= silent_channel(BUFFER_SIZE as nat));
                };
            }
        }
        let ne = self.edges.len();
        let mut f: usize = 0;
        while f < ne
            invariant
                f <= ne,
                ne == self.spec_edges().len(),
                self.nodes_wf(),
                buf.wf(),
                buf@.len() >= 1,
                buf.spec_sample_len() == BUFFER_SIZE,
                buf.rate() == sample_rate,
                buf@ == self.input_fold(f as int, dst, port, channels as nat, interp),
            decreases ne - f,
        {
            let e = self.edges[f];
            if e.dst.0 == dst && e.dst_port == port && e.dst_port != MAX_PORT {
                match self.find_node(e.src.0) {
                    Some(pos) => {
                        proof {
                            self.lemma_index_at(pos as int);
                        }
                        let src = &self.nodes[pos].node;
                        if (e.src_port as usize) < src.buffers.len() {
                            let sbuf = &src.buffers[e.src_port as usize];
                            buf = buf.add(sbuf, interp);
                        }
                    },
                    None => {},
                }
            }
            f += 1;
        }
        buf
    }

    /// The number of quanta in which the node with the given id has
    /// been processed.
    pub fn node_quanta(&self, id: u64) -> (r: Option<u64>)
        requires
            self.nodes_wf(),
        ensures
            r is Some <==> self.contains_node(id),
            r matches Some(q) ==> q == self.node_of(id).quanta_processed,
    {
        match self.find_node(id) {
            Some(pos) => {
                proof {
                    self.lemma_index_at(pos as int);
                }
                Some(self.nodes[pos].node.quanta_processed)
            },
            None => None,
        }
    }

    /// The first output buffer of the destination node, if stored.
    pub fn destination_buffer(&self) -> (r: Option<&AudioBuffer>)
        requires
            self.nodes_wf(),
        ensures
            r is Some <==> (self.contains_node(0) && self.node_of(0).buffers@.len() >= 1),
            r matches Some(b) ==> *b == self.node_of(0).buffers@[0],
    {
        match self.find_node(0) {
            Some(pos) => {
                proof {
                    self.lemma_index_at(pos as int);
                }
                if self.nodes[pos].node.buffers.len() >= 1 {
                    Some(&self.nodes[pos].node.buffers[0])
                } else {
                    None
                }
            },
            None => None,
        }
    }

    /// Render one quantum at frame time `timestamp`: every node of the
    /// cached order, in order, has its inputs mixed (see
    /// [`Graph::input_fold`]) and its processor run exactly once; its
    /// quantum counter is bumped accordingly.  Nodes outside the order
    /// are untouched.
    pub fn render(&mut self, timestamp: Timestamp, sample_rate: SampleRate)
        requires
            old(self).wf(),
        ensures
            final(self).wf(),
            final(self).spec_edges() == old(self).spec_edges(),
            final(self).spec_ordered() == old(self).spec_ordered(),
            final(self).spec_nodes().len() == old(self).spec_nodes().len(),
            forall|k: int|
                0 <= k < old(self).spec_nodes().len() ==> (#[trigger] final(self).spec_nodes()[
                    k
                ]).id == old(self).spec_nodes()[k].id,
            forall|k: int|
                0 <= k < old(self).spec_nodes().len() ==> same_shape(
                    (#[trigger] final(self).spec_nodes()[k]).node,
                    old(self).spec_nodes()[k].node,
                ),
            forall|k: int|
                0 <= k < old(self).spec_nodes().len() ==> (#[trigger] final(self).spec_nodes()[
                    k
                ]).node.quanta_processed == (if contains_id(
                    old(self).spec_ordered(),
                    old(self).spec_nodes()[k].id,
                ) {
                    bump(old(self).spec_nodes()[k].node.quanta_processed)
                } else {
                    old(self).spec_nodes()[k].node.quanta_processed
                }),
            render_quantum(*old(self), *final(self), timestamp, sample_rate),
    {
        let n_ord = self.ordered.len();
        let ghost mut chain: Seq<Graph> = seq![*self];
        let mut i: usize = 0;
        while i < n_ord
            invariant
                i <= n_ord,
                self.wf(),
                n_ord == self.spec_ordered().len(),
                self.spec_edges() == old(self).spec_edges(),
                self.spec_ordered() == old(self).spec_ordered(),
                self.spec_nodes().len() == old(self).spec_nodes().len(),
                forall|k: int|
                    0 <= k < old(self).spec_nodes().len() ==> (#[trigger] self.spec_nodes()[
                        k
                    ]).id == old(self).spec_nodes()[k].id,
                forall|k: int|
                    0 <= k < old(self).spec_nodes().len() ==> same_shape(
                        (#[trigger] self.spec_nodes()[k]).node,
                        old(self).spec_nodes()[k].node,
                    ),
                forall|k: int|
                    0 <= k < old(self).spec_nodes().len() ==> (#[trigger] self.spec_nodes()[
                        k
                    ]).node.quanta_processed == (if contains_id(
                        old(self).spec_ordered().take(i as int),
                        old(self).spec_nodes()[k].id,
                    ) {
                        bump(old(self).spec_nodes()[k].node.quanta_processed)
                    } else {
                        old(self).spec_nodes()[k].node.quanta_processed
                    }),
                chain.len() == i + 1,
                chain[0] == *old(self),
                chain[i as int] == *self,
                forall|j: int|
                    0 <= j < i ==> #[trigger] render_step(
                        chain[j],
                        old(self).spec_ordered()[j],
                        chain[j + 1],
                        timestamp,
                        sample_rate,
                    ),
            decreases n_ord - i,
        {
            let idx = self.ordered[i];
            let pos = match self.find_node(idx.0) {
                Some(p) => p,
                None => {
                    proof {
                        assert(self.contains_node(self.spec_ordered()[i as int].0));
                        assert(false);
                    }
                    0
                },
            };
            proof {
                self.lemma_index_at(pos as int);
            }
            let n_inputs = self.nodes[pos].node.inputs;
            let count = self.nodes[pos].node.channel_config.count();
            let mode = self.nodes[pos].node.channel_config.count_mode();
            let interp = self.nodes[pos].node.channel_config.interpretation();
            let ghost pre_remove = *self;
            let ghost cfg0 = pre_remove.node_of(idx.0).channel_config;
            let mut entry = self.nodes.remove(pos);
            let ghost entry0 = entry;
            proof {
                assert(entry0 == pre_remove.spec_nodes()[pos as int]);
                assert forall|k: int, l: int|
                    0 <= k < l < self.spec_nodes().len() implies (
                #[trigger] self.spec_nodes()[k]).id != (#[trigger] self.spec_nodes()[l]).id by {
                    let kk = if k < pos as int {
                        k
                    } else {
                        k + 1
                    };
                    let ll = if l < pos as int {
                        l
                    } else {
                        l + 1
                    };
                    assert(self.spec_nodes()[k] == pre_remove.spec_nodes()[kk]);
                    assert(self.spec_nodes()[l] == pre_remove.spec_nodes()[ll]);
                };
                assert forall|k: int| 0 <= k < self.spec_nodes().len() implies node_wf(
                    (#[trigger] self.spec_nodes()[k]).node,
                ) by {
                    let kk = if k < pos as int {
                        k
                    } else {
                        k + 1
                    };
                    assert(self.spec_nodes()[k] == pre_remove.spec_nodes()[kk]);
                };
            }
            let mut input_bufs: Vec<AudioBuffer> = Vec::new();
            let mut p: usize = 0;
            while p < n_inputs
                invariant
                    p <= n_inputs,
                    self.nodes_wf(),
                    pre_remove.nodes_wf(),
                    count >= 1,
                    pos < pre_remove.spec_nodes().len(),
                    pre_remove.spec_nodes()[pos as int].id == idx.0,
                    self.spec_nodes() == pre_remove.spec_nodes().remove(pos as int),
                    self.spec_edges() == pre_remove.spec_edges(),
                    count == cfg0.spec_count(),
                    mode == cfg0.spec_count_mode(),
                    interp == cfg0.spec_interpretation(),
                    input_bufs@.len() == p,
                    forall|q: int|
                        0 <= q < p ==> {
                            &&& (#[trigger] input_bufs@[q]).wf()
                            &&& input_bufs@[q]@.len() >= 1
                            &&& input_bufs@[q].spec_sample_len() == BUFFER_SIZE
                        },
                    forall|q: int|
                        0 <= q < p ==> (#[trigger] input_bufs@[q])@ == mixed_input(
                            pre_remove,
                            idx,
                            q as u32,
                            cfg0,
                        ),
                decreases n_inputs - p,
            {
                let mut buf = self.collect_input(
                    idx.0,
                    p as u32,
                    1,
                    interp,
                    sample_rate,
                );
                proof {
                    lemma_fold_except(
                        pre_remove,
                        *self,
                        pos as int,
                        idx.0,
                        self.spec_edges().len() as int,
                        idx.0,
                        p as u32,
                        1,
                        interp,
                    );
                }
                let ghost folded = buf@;
                let cur = buf.number_of_channels();
                let new_channels: usize = match mode {
                    ChannelCountMode::Max => cur,
                    ChannelCountMode::Explicit => count,
                    ChannelCountMode::ClampedMax => {
                        if cur < count {
                            cur
                        } else {
                            count
                        }
                    },
                };
                buf.mix(new_channels, interp);
                proof {
                    assert(buf@ == mixed_input(pre_remove, idx, p as u32, cfg0));
                }
                input_bufs.push(buf);
                p += 1;
            }
            entry.node.processor.process(
                &input_bufs,
                &mut entry.node.buffers,
                timestamp,
                sample_rate,
            );
            let q = entry.node.quanta_processed;
            entry.node.quanta_processed = if q < u64::MAX {
                q + 1
            } else {
                q
            };
            self.nodes.insert(pos, entry);
            proof {
                assert(self.spec_ordered().take(i + 1) =~= self.spec_ordered().take(
                    i as int,
                ).push(idx));
                assert(self.spec_nodes() =~= pre_remove.spec_nodes().update(
                    pos as int,
                    self.spec_nodes()[pos as int],
                ));
                assert(self.spec_nodes()[pos as int].id == idx.0);
                assert forall|k: int| 0 <= k < old(self).spec_nodes().len() implies (
                #[trigger] self.spec_nodes()[k]).node.quanta_processed == (if contains_id(
                    old(self).spec_ordered().take(i + 1),
                    old(self).spec_nodes()[k].id,
                ) {
                    bump(old(self).spec_nodes()[k].node.quanta_processed)
                } else {
                    old(self).spec_nodes()[k].node.quanta_processed
                }) by {
                    if k == pos as int {
                        assert(contains_id(
                            old(self).spec_ordered().take(i + 1),
                            old(self).spec_nodes()[k].id,
                        )) by {
                            assert(old(self).spec_ordered().take(i + 1)[i as int].0 == idx.0);
                        }
                        assert(!contains_id(
                            old(self).spec_ordered().take(i as int),
                            old(self).spec_nodes()[k].id,
                        )) by {
                            if contains_id(
                                old(self).spec_ordered().take(i as int),
                                old(self).spec_nodes()[k].id,
                            ) {
                                let w = choose|w: int|
                                    0 <= w < i && old(self).spec_ordered().take(i as int)[w].0
                                        == old(self).spec_nodes()[k].id;
                                assert(old(self).spec_ordered()[w].0 == idx.0);
                                assert(old(self).spec_ordered()[i as int].0 == idx.0);
                                assert(distinct_ids(old(self).spec_ordered()));
                                assert(false);
                            }
                        }
                    } else {
                        assert(self.spec_nodes()[k] == pre_remove.spec_nodes()[k]);
                        assert(contains_id(
                            old(self).spec_ordered().take(i + 1),
                            old(self).spec_nodes()[k].id,
                        ) == contains_id(
                            old(self).spec_ordered().take(i as int),
                            old(self).spec_nodes()[k].id,
                        )) by {
                            let a = old(self).spec_ordered().take(i as int);
                            let b = old(self).spec_ordered().take(i + 1);
                            if contains_id(a, old(self).spec_nodes()[k].id) {
                                let w = choose|w: int|
                                    0 <= w < a.len() && a[w].0 == old(self).spec_nodes()[k].id;
                                assert(b[w].0 == old(self).spec_nodes()[k].id);
                            }
                            if contains_id(b, old(self).spec_nodes()[k].id) {
                                let w = choose|w: int|
                                    0 <= w < b.len() && b[w].0 == old(self).spec_nodes()[k].id;
                                if w == i as int {
                                    // that would be this node's own id
                                    assert(old(self).spec_nodes()[k].id == idx.0);
                                    assert(old(self).spec_nodes()[pos as int].id == idx.0);
                                    assert(false);
                                } else {
                                    assert(a[w].0 == old(self).spec_nodes()[k].id);
                                }
                            }
                        }
                    }
                };
                assert forall|k: int| 0 <= k < self.spec_nodes().len() implies node_wf(
                    (#[trigger] self.spec_nodes()[k]).node,
                ) by {
                    if k != pos as int {
                        assert(self.spec_nodes()[k] == pre_remove.spec_nodes()[k]);
                    }
                };
                assert forall|k: int, l: int|
                    0 <= k < l < self.spec_nodes().len() implies (
                #[trigger] self.spec_nodes()[k]).id != (#[trigger] self.spec_nodes()[l]).id by {
                    assert(self.spec_nodes()[k].id == pre_remove.spec_nodes()[k].id);
                    assert(self.spec_nodes()[l].id == pre_remove.spec_nodes()[l].id);
                };
                assert forall|k: int| 0 <= k < self.spec_ordered().len() implies self
                    .contains_node((#[trigger] self.spec_ordered()[k]).0) by {
                    assert(pre_remove.contains_node(pre_remove.spec_ordered()[k].0));
                    let w = choose|w: int|
                        0 <= w < pre_remove.node_ids().len() && pre_remove.node_ids()[w]
                            == pre_remove.spec_ordered()[k].0;
                    assert(self.node_ids()[w] == pre_remove.spec_ordered()[k].0);
                };
                // this node's turn was exactly one render step
                assert(render_step(pre_remove, idx, *self, timestamp, sample_rate)) by {
                    pre_remove.lemma_index_at(pos as int);
                    assert(pre_remove.index_of(idx.0) == pos as int);
                    let n0 = pre_remove.node_of(idx.0);
                    let n1 = self.spec_nodes()[pos as int].node;
                    assert(n0 == entry0.node);
                    assert(input_bufs@.len() == n0.inputs);
                    assert(crate::node::process_rel(
                        n0.processor,
                        input_bufs@,
                        n0.buffers@,
                        n1.processor,
                        n1.buffers@,
                        timestamp,
                        sample_rate,
                    ));
                };
                let ghost gpre = chain[i as int];
                chain = chain.push(*self);
                assert(chain[i + 1] == *self);
                assert forall|j: int| 0 <= j < i + 1 implies #[trigger] render_step(
                    chain[j],
                    old(self).spec_ordered()[j],
                    chain[j + 1],
                    timestamp,
                    sample_rate,
                ) by {
                    if j < i {
                        assert(chain[j] == chain.drop_last()[j]);
                        assert(chain[j + 1] == chain.drop_last()[j + 1]);
                        assert(render_step(
                            chain.drop_last()[j],
                            old(self).spec_ordered()[j],
                            chain.drop_last()[j + 1],
                            timestamp,
                            sample_rate,
                        ));
                    } else {
                        assert(chain[j] == gpre);
                        assert(gpre == pre_remove);
                        assert(old(self).spec_ordered()[j] == idx);
                    }
                };
            }
            i += 1;
        }
        proof {
            assert(old(self).spec_ordered().take(n_ord as int) =~= old(self).spec_ordered());
            assert(render_chain_ok(
                *old(self),
                old(self).spec_ordered(),
                *self,
                timestamp,
                sample_rate,
                chain,
            ));
        }
    }
}

} // verus!

verus! {

/// The sample value that the interleaved device output reads from the
/// destination node for channel `c` at frame `f`: silence when no
/// destination is stored or the channel is missing.
pub open spec fn dest_sample(g: Graph, c: int, f: int) -> i64 {
    if g.contains_node(0) && g.node_of(0).buffers@.len() >= 1 && 0 <= c < g.node_of(
        0,
    ).buffers@[0]@.len() && 0 <= f < g.node_of(0).buffers@[0]@[c].len() {
        g.node_of(0).buffers@[0]@[c][f]
    } else {
        0
    }
}

/// What one control message does to the graph.  A registration whose
/// channel count is zero or whose processor state is malformed is
/// dropped, as are lifetime commands for unknown ids.
pub open spec fn message_step(pre: Graph, m: ControlMessage, post: Graph) -> bool {
    match m {
        ControlMessage::RegisterNode { id, node, inputs, outputs, channel_config } => {
            if channel_config.spec_count() >= 1 && processor_wf(node) {
                &&& post.spec_edges() == pre.spec_edges()
                &&& post.spec_ordered() == pre.spec_ordered()
                &&& post.contains_node(id)
                &&& post.node_of(id).processor == node
                &&& post.node_of(id).inputs == inputs
                &&& post.node_of(id).outputs == outputs
                &&& post.node_of(id).channel_config == channel_config
                &&& post.node_of(id).free_when_finished == false
                &&& post.node_of(id).quanta_processed == 0
                &&& forall|x: u64|
                    x != id ==> #[trigger] post.contains_node(x) == pre.contains_node(x)
                &&& forall|x: u64|
                    x != id && pre.contains_node(x) ==> (#[trigger] post.node_of(x))
                        == pre.node_of(x)
            } else {
                post == pre
            }
        },
        ControlMessage::ConnectNode { from, to, output, input } => {
            let e = Edge {
                src: NodeIndex(from),
                src_port: output,
                dst: NodeIndex(to),
                dst_port: input,
            };
            &&& post.spec_nodes() == pre.spec_nodes()
            &&& post.spec_edges() == (if pre.spec_edges().contains(e) {
                pre.spec_edges()
            } else {
                pre.spec_edges().push(e)
            })
            &&& (cycle_free_into(post.spec_edges(), post.node_ids()) ==> topo_sorted(
                post.spec_edges(),
                post.node_ids(),
                post.spec_ordered(),
            ))
            &&& (post.contains_node(0) ==> contains_id(post.spec_ordered(), 0))
        },
        ControlMessage::DisconnectNode { from, to } => {
            &&& post.spec_nodes() == pre.spec_nodes()
            &&& post.spec_edges() == edges_without(
                pre.spec_edges(),
                NodeIndex(from),
                Some(NodeIndex(to)),
            )
            &&& (cycle_free_into(post.spec_edges(), post.node_ids()) ==> topo_sorted(
                post.spec_edges(),
                post.node_ids(),
                post.spec_ordered(),
            ))
            &&& (post.contains_node(0) ==> contains_id(post.spec_ordered(), 0))
        },
        ControlMessage::DisconnectAll { from } => {
            &&& post.spec_nodes() == pre.spec_nodes()
            &&& post.spec_edges() == edges_without(pre.spec_edges(), NodeIndex(from), None)
            &&& (cycle_free_into(post.spec_edges(), post.node_ids()) ==> topo_sorted(
                post.spec_edges(),
                post.node_ids(),
                post.spec_ordered(),
            ))
            &&& (post.contains_node(0) ==> contains_id(post.spec_ordered(), 0))
        },
        ControlMessage::FreeWhenFinished { id } => {
            &&& post.spec_edges() == pre.spec_edges()
            &&& post.spec_ordered() == pre.spec_ordered()
            &&& post.spec_nodes().len() == pre.spec_nodes().len()
            &&& forall|k: int|
                0 <= k < pre.spec_nodes().len() ==> (#[trigger] post.spec_nodes()[k]).id
                    == pre.spec_nodes()[k].id
            &&& (pre.contains_node(id) ==> post.node_of(id).free_when_finished == true
                && same_shape_except_flag(post.node_of(id), pre.node_of(id)))
            &&& forall|k: int|
                0 <= k < pre.spec_nodes().len() && pre.spec_nodes()[k].id != id ==> (
                #[trigger] post.spec_nodes()[k]) == pre.spec_nodes()[k]
            &&& (!pre.contains_node(id) ==> post == pre)
        },
        ControlMessage::SetChannelConfig { id, channel_config } => {
            if channel_config.spec_count() >= 1 {
                config_set_step(pre, id, channel_config, post)
            } else {
                post == pre
            }
        },
        ControlMessage::StartAt { id, start } => schedule_step(pre, id, start, true, post),
        ControlMessage::StopAt { id, stop } => schedule_step(pre, id, stop, false, post),
    }
}

/// Whether two node records differ at most in the reclaim flag.
pub open spec fn same_shape_except_flag(a: Node, b: Node) -> bool {
    &&& a.processor == b.processor
    &&& a.buffers == b.buffers
    &&& a.inputs == b.inputs
    &&& a.outputs == b.outputs
    &&& a.channel_config == b.channel_config
    &&& a.quanta_processed == b.quanta_processed
}

/// A witness chain for [`message_chain`]: `chain` records the graph
/// before and after each message.
pub open spec fn chain_ok(
    pre: Graph,
    msgs: Seq<ControlMessage>,
    post: Graph,
    chain: Seq<Graph>,
) -> bool {
    &&& chain.len() == msgs.len() + 1
    &&& chain[0] == pre
    &&& chain[msgs.len() as int] == post
    &&& forall|i: int| 0 <= i < msgs.len() ==> #[trigger] message_step(chain[i], msgs[i], chain[i + 1])
}

/// The graph `post` results from applying `msgs`, in order, to `pre`.
pub open spec fn message_chain(pre: Graph, msgs: Seq<ControlMessage>, post: Graph) -> bool {
    exists|chain: Seq<Graph>| #[trigger] chain_ok(pre, msgs, post, chain)
}

/// Operations running off the system-level audio callback: owns the
/// graph and the frame counter, drains the control queue, and writes
/// interleaved samples.
pub struct RenderThread {
    graph: Graph,
    sample_rate: SampleRate,
    channels: usize,
    frames_played: u64,
}

impl RenderThread {
    /// The owned graph, as a spec-level value.
    pub closed spec fn spec_graph(&self) -> Graph {
        self.graph
    }

    /// The context sample rate, as a spec-level value.
    pub closed spec fn spec_sample_rate(&self) -> SampleRate {
        self.sample_rate
    }

    /// The device channel count, as a spec-level value.
    pub closed spec fn spec_channels(&self) -> usize {
        self.channels
    }

    /// The frame counter, as a spec-level value.
    pub closed spec fn spec_frames_played(&self) -> u64 {
        self.frames_played
    }

    /// Well-formedness: the graph is well formed, the rate is positive
    /// and at least one device channel is served.
    pub open spec fn wf(&self) -> bool {
        &&& self.spec_graph().wf()
        &&& self.spec_sample_rate().0 >= 1
        &&& self.spec_channels() >= 1
    }

    /// Set up a render thread around a fresh graph whose destination
    /// root is `root`; the device channel count is taken from the
    /// configured channel count.
    pub fn new(root: Processor, sample_rate: SampleRate, channel_config: ChannelConfig) -> (r:
        Self)
        requires
            sample_rate.0 >= 1,
            channel_config.spec_count() >= 1,
            processor_wf(root),
        ensures
            r.wf(),
            r.spec_sample_rate() == sample_rate,
            r.spec_channels() == channel_config.spec_count(),
            r.spec_frames_played() == 0,
            r.spec_graph().contains_node(0),
            r.spec_graph().spec_edges().len() == 0,
    {
        let channels = channel_config.count();
        Self { graph: Graph::new(root, channel_config), sample_rate, channels, frames_played: 0 }
    }

    /// The frame counter: sample frames rendered so far.
    pub fn frames_played(&self) -> (r: u64)
        ensures
            r == self.spec_frames_played(),
    {
        self.frames_played
    }

    /// Read access to the owned graph.
    pub fn graph(&self) -> (r: &Graph)
        ensures
            *r == self.spec_graph(),
    {
        &self.graph
    }

    /// Apply the drained control queue to the graph, in send order (see
    /// [`message_step`]).
    pub fn handle_control_messages(&mut self, messages: Vec<ControlMessage>)
        requires
            old(self).wf(),
        ensures
            final(self).wf(),
            final(self).spec_sample_rate() == old(self).spec_sample_rate(),
            final(self).spec_channels() == old(self).spec_channels(),
            final(self).spec_frames_played() == old(self).spec_frames_played(),
            message_chain(old(self).spec_graph(), messages@, final(self).spec_graph()),
    {
        let ghost orig = messages@;
        let mut messages = messages;
        let ghost mut chain: Seq<Graph> = seq![self.graph];
        let n = messages.len();
        let mut i: usize = 0;
        while i < n
            invariant
                i <= n,
                n == orig.len(),
                messages@ == orig.skip(i as int),
                self.wf(),
                self.spec_sample_rate() == old(self).spec_sample_rate(),
                self.spec_channels() == old(self).spec_channels(),
                self.spec_frames_played() == old(self).spec_frames_played(),
                chain.len() == i + 1,
                chain[0] == old(self).spec_graph(),
                chain[i as int] == self.spec_graph(),
                forall|j: int|
                    0 <= j < i ==> #[trigger] message_step(chain[j], orig[j], chain[j + 1]),
            decreases n - i,
        {
            let msg = messages.remove(0);
            proof {
                assert(msg == orig[i as int]);
                assert(messages@ =~= orig.skip(i + 1));
            }
            match msg {
                ControlMessage::RegisterNode { id, node, inputs, outputs, channel_config } => {
                    if channel_config.count() >= 1 && node.storable() {
                        self.graph.add_node(NodeIndex(id), node, inputs, outputs, channel_config);
                    }
                },
                ControlMessage::ConnectNode { from, to, output, input } => {
                    self.graph.add_edge((NodeIndex(from), output), (NodeIndex(to), input));
                },
                ControlMessage::DisconnectNode { from, to } => {
                    self.graph.remove_edge(NodeIndex(from), NodeIndex(to));
                },
                ControlMessage::DisconnectAll { from } => {
                    self.graph.remove_edges_from(NodeIndex(from));
                },
                ControlMessage::FreeWhenFinished { id } => {
                    self.graph.mark_free_when_finished(id);
                },
                ControlMessage::SetChannelConfig { id, channel_config } => {
                    if channel_config.count() >= 1 {
                        self.graph.set_channel_config(id, channel_config);
                    }
                },
                ControlMessage::StartAt { id, start } => {
                    self.graph.schedule_start(id, start);
                },
                ControlMessage::StopAt { id, stop } => {
                    self.graph.schedule_stop(id, stop);
                },
            }
            proof {
                let pre_g = chain[i as int];
                chain = chain.push(self.graph);
                assert(chain[i + 1] == self.spec_graph());
                assert(forall|j: int|
                    0 <= j < i ==> chain[j] == #[trigger] chain.drop_last()[j]);
                assert(message_step(pre_g, orig[i as int], chain[i + 1]));
                assert forall|j: int| 0 <= j < i + 1 implies #[trigger] message_step(
                    chain[j],
                    orig[j],
                    chain[j + 1],
                ) by {
                    if j < i {
                        assert(chain[j] == chain.drop_last()[j]);
                        assert(chain[j + 1] == chain.drop_last()[j + 1]);
                        assert(message_step(chain.drop_last()[j], orig[j], chain.drop_last()[j + 1]));
                    }
                };
            }
            i += 1;
        }
        proof {
            assert(chain_ok(old(self).spec_graph(), orig, self.spec_graph(), chain));
        }
    }
}

} // verus!

verus! {

/// The timestamp of the quantum that starts at frame `frames`, in
/// saturating nanoseconds.
pub open spec fn time_of_frames(frames: u64, rate: u32) -> u64 {
    if frames * 1_000_000_000 / (rate as int) <= u64::MAX {
        (frames * 1_000_000_000 / (rate as int)) as u64
    } else {
        u64::MAX
    }
}

/// The frame counter advanced by one quantum, saturating.
pub open spec fn frames_after(frames: u64, step: u64) -> u64 {
    if frames + step <= u64::MAX {
        (frames + step) as u64
    } else {
        u64::MAX
    }
}

/// The frame counter after `n` whole quanta, saturating.
pub open spec fn frames_plus(frames: u64, n: int) -> u64
    decreases n,
{
    if n <= 0 {
        frames
    } else {
        frames_after(frames_plus(frames, n - 1), BUFFER_SIZE as u64)
    }
}

/// The block one offline quantum contributes: the destination node's
/// first output buffer coerced to `channels` channels, missing channels
/// silent — and all silence when no destination is stored.
pub open spec fn offline_chunk(g: Graph, channels: int) -> Seq<Seq<i64>> {
    Seq::new(
        channels as nat,
        |c: int|
            if g.contains_node(0) && g.node_of(0).buffers@.len() >= 1 && c < g.node_of(
                0,
            ).buffers@[0]@.len() {
                g.node_of(0).buffers@[0]@[c]
            } else {
                silent_channel(BUFFER_SIZE as nat)
            },
    )
}

/// A witness chain for [`offline_rendered`]: starting from graph `g0`
/// at frame `frames0`, `nquanta` quanta are rendered in turn (each a
/// [`render_quantum`] at its own timestamp), ending at `g1`; `content`
/// is the concatenation of the per-quantum destination blocks at
/// `channels` channels.
pub open spec fn offline_render_ok(
    g0: Graph,
    g1: Graph,
    channels: int,
    rate: SampleRate,
    frames0: u64,
    nquanta: int,
    gs: Seq<Graph>,
    content: Seq<Seq<i64>>,
) -> bool {
    &&& gs.len() == nquanta + 1
    &&& gs[0] == g0
    &&& gs[nquanta as int] == g1
    &&& (forall|b: int|
        0 <= b < nquanta ==> #[trigger] render_quantum(
            gs[b],
            gs[b + 1],
            Timestamp { nanos: time_of_frames(frames_plus(frames0, b), rate.0) },
            rate,
        ))
    &&& content.len() == channels
    &&& (forall|c: int|
        0 <= c < channels ==> (#[trigger] content[c]).len() == nquanta * BUFFER_SIZE)
    &&& (forall|b: int, c: int|
        0 <= b < nquanta && 0 <= c < channels ==> (#[trigger] content[c].subrange(
            b * BUFFER_SIZE,
            (b + 1) * BUFFER_SIZE,
        )) == offline_chunk(gs[b + 1], channels)[c])
}

/// A witness chain for [`interleaved_rendered`]: starting from graph
/// `g0` at frame `frames0`, `nblocks` quanta are rendered in turn, and
/// `data` interleaves each quantum's destination block at `channels`
/// device channels.
pub open spec fn interleaved_render_ok(
    g0: Graph,
    g1: Graph,
    channels: int,
    rate: SampleRate,
    frames0: u64,
    nblocks: int,
    gs: Seq<Graph>,
    data: Seq<i64>,
) -> bool {
    &&& gs.len() == nblocks + 1
    &&& gs[0] == g0
    &&& gs[nblocks as int] == g1
    &&& (forall|b: int|
        0 <= b < nblocks ==> #[trigger] render_quantum(
            gs[b],
            gs[b + 1],
            Timestamp { nanos: time_of_frames(frames_plus(frames0, b), rate.0) },
            rate,
        ))
    &&& (forall|b: int, f: int, c: int|
        0 <= b < nblocks && 0 <= f < BUFFER_SIZE && 0 <= c < channels ==> #[trigger] data[b * (
        channels * BUFFER_SIZE) + f * channels + c] == dest_sample(gs[b + 1], c, f))
}

/// The graph `g1` and interleaved slice `data` result from rendering
/// `nblocks` quanta on `g0`.
pub open spec fn interleaved_rendered(
    g0: Graph,
    g1: Graph,
    channels: int,
    rate: SampleRate,
    frames0: u64,
    nblocks: int,
    data: Seq<i64>,
) -> bool {
    exists|gs: Seq<Graph>|
        #[trigger] interleaved_render_ok(g0, g1, channels, rate, frames0, nblocks, gs, data)
}

/// The graph `g1` and channel matrix `content` result from rendering
/// `nquanta` offline quanta on `g0`.
pub open spec fn offline_rendered(
    g0: Graph,
    g1: Graph,
    channels: int,
    rate: SampleRate,
    frames0: u64,
    nquanta: int,
    content: Seq<Seq<i64>>,
) -> bool {
    exists|gs: Seq<Graph>|
        #[trigger] offline_render_ok(g0, g1, channels, rate, frames0, nquanta, gs, content)
}

impl RenderThread {
    /// The timestamp handed to processors for the quantum that starts
    /// at the current frame counter, in saturating nanoseconds.
    fn current_timestamp(&self) -> (r: Timestamp)
        requires
            self.spec_sample_rate().0 >= 1,
        ensures
            r.nanos == time_of_frames(self.spec_frames_played(), self.spec_sample_rate().0),
    {
        proof {
            assert((self.frames_played as u128) * 1_000_000_000u128
                < 0x1_0000_0000_0000_0000_0000_0000u128) by (nonlinear_arith)
                requires
                    (self.frames_played as u128) < 0x1_0000_0000_0000_0000u128,
            ;
        }
        let t: u128 = (self.frames_played as u128) * 1_000_000_000u128 / (
        self.sample_rate.0 as u128);
        if t > u64::MAX as u128 {
            Timestamp { nanos: u64::MAX }
        } else {
            Timestamp { nanos: t as u64 }
        }
    }

    /// Render one quantum into the interleaved output slice: the graph
    /// runs once (see [`Graph::render`]), the frame counter advances by
    /// one quantum, and every frame of every device channel receives
    /// the destination node's sample for it, or silence where the
    /// destination serves no such channel.
    /// Render one quantum into the `block`-th sub-range of the
    /// interleaved output slice; every other index of the slice is left
    /// alone.
    fn render_block(&mut self, data: &mut Vec<i64>, block: usize)
        requires
            old(self).wf(),
            (block + 1) * (old(self).spec_channels() * BUFFER_SIZE) <= old(data)@.len(),
        ensures
            final(self).wf(),
            final(self).spec_sample_rate() == old(self).spec_sample_rate(),
            final(self).spec_channels() == old(self).spec_channels(),
            final(self).spec_frames_played() == frames_after(
                old(self).spec_frames_played(),
                BUFFER_SIZE as u64,
            ),
            final(data)@.len() == old(data)@.len(),
            forall|f: int, c: int|
                0 <= f < BUFFER_SIZE && 0 <= c < old(self).spec_channels()
                    ==> #[trigger] final(data)@[block * (old(self).spec_channels() * BUFFER_SIZE)
                    + f * old(self).spec_channels() + c] == dest_sample(
                    final(self).spec_graph(),
                    c,
                    f,
                ),
            forall|j: int|
                0 <= j < old(data)@.len() && (j < block * (old(self).spec_channels() * BUFFER_SIZE)
                    || j >= (block + 1) * (old(self).spec_channels() * BUFFER_SIZE))
                    ==> #[trigger] final(data)@[j] == old(data)@[j],
            render_quantum(
                old(self).spec_graph(),
                final(self).spec_graph(),
                Timestamp {
                    nanos: time_of_frames(
                        old(self).spec_frames_played(),
                        old(self).spec_sample_rate().0,
                    ),
                },
                old(self).spec_sample_rate(),
            ),
    {
        let ts = self.current_timestamp();
        let rate = self.sample_rate;
        self.graph.render(ts, rate);
        let q0 = self.frames_played;
        self.frames_played = if q0 <= u64::MAX - BUFFER_SIZE as u64 {
            q0 + BUFFER_SIZE as u64
        } else {
            u64::MAX
        };
        let channels = self.channels;
        let qlen = BUFFER_SIZE as usize;
        let dlen = data.len();
        proof {
            assert(channels * qlen <= dlen && block * (channels * qlen) <= dlen
                && block * (channels * qlen) + channels * qlen <= dlen)
                by (nonlinear_arith)
                requires
                    (block + 1) * (channels * qlen) <= dlen,
                    block >= 0,
                    channels * qlen >= 0,
            ;
        }
        let off = block * (channels * qlen);
        let ghost g = self.spec_graph();
        let mut f: usize = 0;
        while f < qlen
            invariant
                f <= qlen,
                qlen == BUFFER_SIZE,
                channels >= 1,
                g == self.spec_graph(),
                self.spec_graph().wf(),
                off == block * (channels * qlen),
                off + channels * qlen <= data@.len(),
                data@.len() == old(data)@.len(),
                forall|f2: int, c2: int|
                    0 <= f2 < f && 0 <= c2 < channels ==> #[trigger] data@[off + f2 * channels
                        + c2] == dest_sample(g, c2, f2),
                forall|j: int|
                    0 <= j < old(data)@.len() && (j < off || j >= off + channels * qlen)
                        ==> #[trigger] data@[j] == old(data)@[j],
            decreases qlen - f,
        {
            let mut c: usize = 0;
            while c < channels
                invariant
                    f < qlen,
                    qlen == BUFFER_SIZE,
                    c <= channels,
                    channels >= 1,
                    g == self.spec_graph(),
                    self.spec_graph().wf(),
                    off == block * (channels * qlen),
                    off + channels * qlen <= data@.len(),
                    data@.len() == old(data)@.len(),
                    forall|f2: int, c2: int|
                        0 <= f2 < f && 0 <= c2 < channels ==> #[trigger] data@[off + f2 * channels
                            + c2] == dest_sample(g, c2, f2),
                    forall|c2: int|
                        0 <= c2 < c ==> #[trigger] data@[off + f as int * channels + c2]
                            == dest_sample(g, c2, f as int),
                    forall|j: int|
                        0 <= j < old(data)@.len() && (j < off || j >= off + channels * qlen)
                            ==> #[trigger] data@[j] == old(data)@[j],
                decreases channels - c,
            {
                let dlen = data.len();
                proof {
                    assert(f * channels + c < channels * qlen && off + (f * channels + c)
                        < dlen) by (nonlinear_arith)
                        requires
                            0 <= f < qlen,
                            0 <= c < channels,
                            off >= 0,
                            off + channels * qlen <= dlen,
                    ;
                }
                let v: i64 = match self.graph.destination_buffer() {
                    Some(b) => {
                        if c < b.number_of_channels() {
                            proof {
                                let pos = self.spec_graph().index_of(0);
                                self.spec_graph().lemma_index_at(pos);
                                assert(node_wf(self.spec_graph().node_of(0)));
                            }
                            b.channel_data(c).sample(f)
                        } else {
                            0i64
                        }
                    },
                    None => 0i64,
                };
                proof {
                    assert(v == dest_sample(g, c as int, f as int));
                }
                let ghost dpre = data@;
                data.set(off + f * channels + c, v);
                proof {
                    let widx = off + f as int * channels + c as int;
                    assert forall|f2: int, c2: int|
                        0 <= f2 < f && 0 <= c2 < channels implies #[trigger] data@[off + f2
                        * channels + c2] == dest_sample(g, c2, f2) by {
                        assert(off + f2 * channels + c2 != widx && 0 <= off + f2 * channels + c2
                            < dpre.len()) by (nonlinear_arith)
                            requires
                                0 <= f2 < f,
                                0 <= c2 < channels,
                                0 <= c < channels,
                                f < qlen,
                                widx == off + f * channels + c,
                                off + channels * qlen <= dpre.len(),
                                off >= 0,
                        ;
                        assert(data@[off + f2 * channels + c2] == dpre[off + f2 * channels + c2]);
                        assert(dpre[off + f2 * channels + c2] == dest_sample(g, c2, f2));
                    };
                    assert forall|c2: int| 0 <= c2 < c + 1 implies #[trigger] data@[off + f as int
                        * channels + c2] == dest_sample(g, c2, f as int) by {
                        if c2 < c {
                            assert(off + f as int * channels + c2 != widx);
                            assert(0 <= off + f as int * channels + c2 < dpre.len())
                                by (nonlinear_arith)
                                requires
                                    0 <= f < qlen,
                                    0 <= c2 < channels,
                                    off + channels * qlen <= dpre.len(),
                                    off >= 0,
                            ;
                            assert(data@[off + f as int * channels + c2] == dpre[off + f as int
                                * channels + c2]);
                        }
                    };
                    assert forall|j: int|
                        0 <= j < old(data)@.len() && (j < off || j >= off + channels * qlen)
                            implies #[trigger] data@[j] == old(data)@[j] by {
                        assert(j != widx) by (nonlinear_arith)
                            requires
                                widx == off + f * channels + c,
                                0 <= f < qlen,
                                0 <= c < channels,
                                j < off || j >= off + channels * qlen,
                        ;
                        assert(data@[j] == dpre[j]);
                    };
                }
                c += 1;
            }
            f += 1;
        }
        proof {
            assert((block + 1) * (channels * qlen) == off + channels * qlen)
                by (nonlinear_arith)
                requires
                    off == block * (channels * qlen),
            ;
        }
    }

    /// Render the interleaved output slice, one quantum per sub-block
    /// of `channels * BUFFER_SIZE` samples: the graph runs once per
    /// sub-block at the then-current frame time, the frame counter
    /// advances accordingly, and every frame of every device channel
    /// receives the destination node's sample for it, or silence where
    /// the destination serves no such channel.
    pub fn render(&mut self, data: &mut Vec<i64>)
        requires
            old(self).wf(),
            old(self).spec_channels() * BUFFER_SIZE <= usize::MAX,
            old(data)@.len() as int % (old(self).spec_channels() * BUFFER_SIZE) as int == 0,
        ensures
            final(self).wf(),
            final(self).spec_sample_rate() == old(self).spec_sample_rate(),
            final(self).spec_channels() == old(self).spec_channels(),
            final(data)@.len() == old(data)@.len(),
            final(self).spec_frames_played() == frames_plus(
                old(self).spec_frames_played(),
                old(data)@.len() as int / (old(self).spec_channels() * BUFFER_SIZE) as int,
            ),
            interleaved_rendered(
                old(self).spec_graph(),
                final(self).spec_graph(),
                old(self).spec_channels() as int,
                old(self).spec_sample_rate(),
                old(self).spec_frames_played(),
                old(data)@.len() as int / (old(self).spec_channels() * BUFFER_SIZE) as int,
                final(data)@,
            ),
    {
        let stride = self.channels * BUFFER_SIZE as usize;
        let nblocks = data.len() / stride;
        proof {
            assert(nblocks * stride == data@.len()) by (nonlinear_arith)
                requires
                    stride >= 1,
                    nblocks == data@.len() as int / stride as int,
                    data@.len() as int % stride as int == 0,
            ;
        }
        let ghost frames0 = self.spec_frames_played();
        let ghost mut gs: Seq<Graph> = seq![self.spec_graph()];
        let mut b: usize = 0;
        while b < nblocks
            invariant
                b <= nblocks,
                stride == self.spec_channels() * BUFFER_SIZE,
                nblocks * stride == data@.len(),
                self.wf(),
                self.spec_sample_rate() == old(self).spec_sample_rate(),
                self.spec_channels() == old(self).spec_channels(),
                data@.len() == old(data)@.len(),
                frames0 == old(self).spec_frames_played(),
                self.spec_frames_played() == frames_plus(frames0, b as int),
                gs.len() == b + 1,
                gs[0] == old(self).spec_graph(),
                gs[b as int] == self.spec_graph(),
                forall|b2: int|
                    0 <= b2 < b ==> #[trigger] render_quantum(
                        gs[b2],
                        gs[b2 + 1],
                        Timestamp {
                            nanos: time_of_frames(
                                frames_plus(frames0, b2),
                                old(self).spec_sample_rate().0,
                            ),
                        },
                        old(self).spec_sample_rate(),
                    ),
                forall|b2: int, f: int, c: int|
                    0 <= b2 < b && 0 <= f < BUFFER_SIZE && 0 <= c < self.spec_channels()
                        ==> #[trigger] data@[b2 * (self.spec_channels() * BUFFER_SIZE) + f
                        * self.spec_channels() + c] == dest_sample(gs[b2 + 1], c, f),
            decreases nblocks - b,
        {
            proof {
                assert((b + 1) * stride <= nblocks * stride) by (nonlinear_arith)
                    requires
                        0 <= b < nblocks,
                        stride >= 0,
                ;
            }
            let ghost dpre = data@;
            self.render_block(data, b);
            proof {
                gs = gs.push(self.spec_graph());
                assert(gs[b + 1] == self.spec_graph());
                assert forall|b2: int| 0 <= b2 < b + 1 implies #[trigger] render_quantum(
                    gs[b2],
                    gs[b2 + 1],
                    Timestamp {
                        nanos: time_of_frames(
                            frames_plus(frames0, b2),
                            old(self).spec_sample_rate().0,
                        ),
                    },
                    old(self).spec_sample_rate(),
                ) by {
                    if b2 < b {
                        assert(gs[b2] == gs.drop_last()[b2]);
                        assert(gs[b2 + 1] == gs.drop_last()[b2 + 1]);
                    } else {
                        assert(gs[b2] == gs.drop_last()[b as int]);
                    }
                };
                assert forall|b2: int, f: int, c: int|
                    0 <= b2 < b + 1 && 0 <= f < BUFFER_SIZE && 0 <= c < self.spec_channels()
                        implies #[trigger] data@[b2 * (self.spec_channels() * BUFFER_SIZE) + f
                    * self.spec_channels() + c] == dest_sample(gs[b2 + 1], c, f) by {
                    let idx = b2 * (self.spec_channels() * BUFFER_SIZE) + f * self.spec_channels()
                        + c;
                    if b2 < b {
                        assert(0 <= idx < dpre.len() && idx < b * (self.spec_channels()
                            * BUFFER_SIZE)) by (nonlinear_arith)
                            requires
                                idx == b2 * (self.spec_channels() * BUFFER_SIZE) + f
                                    * self.spec_channels() + c,
                                0 <= b2 < b,
                                b < nblocks,
                                0 <= f < BUFFER_SIZE,
                                0 <= c < self.spec_channels(),
                                nblocks * (self.spec_channels() * BUFFER_SIZE) == dpre.len(),
                        ;
                        assert(data@[idx] == dpre[idx]);
                        assert(dpre[idx] == dest_sample(gs[b2 + 1], c, f));
                    }
                };
            }
            b += 1;
        }
        proof {
            assert(interleaved_render_ok(
                old(self).spec_graph(),
                self.spec_graph(),
                old(self).spec_channels() as int,
                old(self).spec_sample_rate(),
                frames0,
                nblocks as int,
                gs,
                data@,
            ));
        }
    }

    /// Render `length` sample frames (rounded up to whole quanta) into
    /// a memory buffer with the device channel count at the context
    /// rate, advancing the graph quantum by quantum.
    pub fn render_audiobuffer(&mut self, length: usize) -> (r: AudioBuffer)
        requires
            old(self).wf(),
            length <= usize::MAX - BUFFER_SIZE,
        ensures
            final(self).wf(),
            final(self).spec_sample_rate() == old(self).spec_sample_rate(),
            final(self).spec_channels() == old(self).spec_channels(),
            r.wf(),
            r@.len() == old(self).spec_channels(),
            r.rate() == old(self).spec_sample_rate(),
            r.spec_sample_len() == ((length + BUFFER_SIZE - 1) as int / BUFFER_SIZE as int)
                * BUFFER_SIZE,
            r.spec_sample_len() >= length,
            final(self).spec_frames_played() == frames_plus(
                old(self).spec_frames_played(),
                (length + BUFFER_SIZE - 1) as int / BUFFER_SIZE as int,
            ),
            offline_rendered(
                old(self).spec_graph(),
                final(self).spec_graph(),
                old(self).spec_channels() as int,
                old(self).spec_sample_rate(),
                old(self).spec_frames_played(),
                (length + BUFFER_SIZE - 1) as int / BUFFER_SIZE as int,
                r@,
            ),
    {
        let q = BUFFER_SIZE as usize;
        let nquanta: usize = if length == 0 {
            0
        } else {
            (length - 1) / q + 1
        };
        proof {
            assert(nquanta == (length + BUFFER_SIZE - 1) as int / BUFFER_SIZE as int
                && nquanta * BUFFER_SIZE >= length && nquanta * q <= length + q) by (nonlinear_arith)
                requires
                    nquanta == if length == 0 { 0int } else { (length - 1) as int / q as int + 1 },
                    q == BUFFER_SIZE,
                    q > 0,
                    length >= 0,
            ;
        }
        let ghost frames0 = self.spec_frames_played();
        let ghost mut gs: Seq<Graph> = seq![self.spec_graph()];
        let mut acc = AudioBuffer::new(self.channels, 0, self.sample_rate);
        let mut b: usize = 0;
        while b < nquanta
            invariant
                b <= nquanta,
                q == BUFFER_SIZE,
                self.wf(),
                self.spec_sample_rate() == old(self).spec_sample_rate(),
                self.spec_channels() == old(self).spec_channels(),
                nquanta * q <= usize::MAX,
                acc.wf(),
                acc@.len() == self.spec_channels(),
                acc.rate() == self.spec_sample_rate(),
                acc.spec_sample_len() == b * q,
                frames0 == old(self).spec_frames_played(),
                self.spec_frames_played() == frames_plus(frames0, b as int),
                gs.len() == b + 1,
                gs[0] == old(self).spec_graph(),
                gs[b as int] == self.spec_graph(),
                forall|b2: int|
                    0 <= b2 < b ==> #[trigger] render_quantum(
                        gs[b2],
                        gs[b2 + 1],
                        Timestamp {
                            nanos: time_of_frames(
                                frames_plus(frames0, b2),
                                old(self).spec_sample_rate().0,
                            ),
                        },
                        old(self).spec_sample_rate(),
                    ),
                forall|b2: int, c: int|
                    0 <= b2 < b && 0 <= c < acc@.len() ==> (#[trigger] acc@[c].subrange(
                        b2 * BUFFER_SIZE,
                        (b2 + 1) * BUFFER_SIZE,
                    )) == offline_chunk(gs[b2 + 1], old(self).spec_channels() as int)[c],
            decreases nquanta - b,
        {
            proof {
                assert(b * q + q <= nquanta * q) by (nonlinear_arith)
                    requires
                        0 <= b < nquanta,
                        q > 0,
                ;
            }
            let ts = self.current_timestamp();
            self.graph.render(ts, self.sample_rate);
            proof {
                gs = gs.push(self.spec_graph());
                assert(gs[b + 1] == self.spec_graph());
                assert forall|b2: int| 0 <= b2 < b + 1 implies #[trigger] render_quantum(
                    gs[b2],
                    gs[b2 + 1],
                    Timestamp {
                        nanos: time_of_frames(
                            frames_plus(frames0, b2),
                            old(self).spec_sample_rate().0,
                        ),
                    },
                    old(self).spec_sample_rate(),
                ) by {
                    if b2 < b {
                        assert(gs[b2] == gs.drop_last()[b2]);
                        assert(gs[b2 + 1] == gs.drop_last()[b2 + 1]);
                    } else {
                        assert(gs[b2] == gs.drop_last()[b as int]);
                    }
                };
            }
            let mut chunk: AudioBuffer = match self.graph.destination_buffer() {
                Some(dstb) => {
                    proof {
                        let pos = self.spec_graph().index_of(0);
                        self.spec_graph().lemma_index_at(pos);
                        assert(node_wf(self.spec_graph().node_of(0)));
                    }
                    dstb.duplicate()
                },
                None => AudioBuffer::new(self.channels, q, self.sample_rate),
            };
            chunk.set_number_of_channels(self.channels);
            chunk.set_sample_rate(self.sample_rate);
            proof {
                assert forall|c: int| 0 <= c < self.spec_channels() implies #[trigger] chunk@[c]
                    == offline_chunk(self.spec_graph(), old(self).spec_channels() as int)[c] by {
                    if self.spec_graph().contains_node(0) && self.spec_graph().node_of(
                        0,
                    ).buffers@.len() >= 1 && c < self.spec_graph().node_of(0).buffers@[0]@.len() {
                    } else {
                        assert(chunk@[c] =~= silent_channel(BUFFER_SIZE as nat));
                    }
                };
            }
            let ghost acc_pre = acc@;
            let res = acc.extend(&chunk);
            proof {
                assert(res is Ok);
                assert forall|b2: int, c: int|
                    0 <= b2 < b + 1 && 0 <= c < acc@.len() implies (#[trigger] acc@[c].subrange(
                    b2 * BUFFER_SIZE,
                    (b2 + 1) * BUFFER_SIZE,
                )) == offline_chunk(gs[b2 + 1], old(self).spec_channels() as int)[c] by {
                    assert(acc@[c] == acc_pre[c] + chunk@[c]);
                    if b2 < b {
                        assert((b2 + 1) * BUFFER_SIZE <= b * BUFFER_SIZE) by (nonlinear_arith)
                            requires
                                0 <= b2 < b,
                        ;
                        assert(acc@[c].subrange(b2 * BUFFER_SIZE, (b2 + 1) * BUFFER_SIZE)
                            =~= acc_pre[c].subrange(b2 * BUFFER_SIZE, (b2 + 1) * BUFFER_SIZE));
                    } else {
                        assert(acc@[c].subrange(b2 * BUFFER_SIZE, (b2 + 1) * BUFFER_SIZE)
                            =~= chunk@[c]);
                        assert(chunk@[c] == offline_chunk(
                            gs[b2 + 1],
                            old(self).spec_channels() as int,
                        )[c]);
                    }
                };
            }
            let q0 = self.frames_played;
            self.frames_played = if q0 <= u64::MAX - BUFFER_SIZE as u64 {
                q0 + BUFFER_SIZE as u64
            } else {
                u64::MAX
            };
            b += 1;
        }
        proof {
            assert(offline_render_ok(
                old(self).spec_graph(),
                self.spec_graph(),
                old(self).spec_channels() as int,
                old(self).spec_sample_rate(),
                frames0,
                nquanta as int,
                gs,
                acc@,
            ));
        }
        acc
    }
}

} // verus!

verus! {

/// Whether any edge feeds the node with the given id.
pub open spec fn has_incoming(edges: Seq<Edge>, id: u64) -> bool {
    exists|e: int| 0 <= e < edges.len() && edges[e].dst.0 == id
}

/// Whether the node with the given id can be reclaimed: it is stored,
/// marked to be freed, reports no tail time, and nothing feeds it any
/// more.
pub open spec fn reclaimable(g: Graph, id: u64) -> bool {
    &&& g.contains_node(id)
    &&& g.node_of(id).free_when_finished
    &&& !crate::node::spec_tail_time(g.node_of(id).processor)
    &&& !has_incoming(g.spec_edges(), id)
}

/// The predicate a node entry must meet to survive reclamation in `g`.
pub open spec fn keep_entry_pred(g: Graph) -> spec_fn(NodeEntry) -> bool {
    |e: NodeEntry| !reclaimable(g, e.id)
}

/// The predicate an edge must meet to survive reclamation in `g`: both
/// endpoints survive.
pub open spec fn keep_edge_pred(g: Graph) -> spec_fn(Edge) -> bool {
    |e: Edge| !reclaimable(g, e.src.0) && !reclaimable(g, e.dst.0)
}

impl Graph {
    /// Whether any edge feeds the node with the given id.
    fn has_incoming_edge(&self, id: u64) -> (r: bool)
        ensures
            r == has_incoming(self.spec_edges(), id),
    {
        let ne = self.edges.len();
        let mut f: usize = 0;
        while f < ne
            invariant
                f <= ne,
                ne == self.spec_edges().len(),
                forall|l: int| 0 <= l < f ==> (#[trigger] self.spec_edges()[l]).dst.0 != id,
            decreases ne - f,
        {
            if self.edges[f].dst.0 == id {
                proof {
                    assert(self.spec_edges()[f as int].dst.0 == id);
                }
                return true;
            }
            f += 1;
        }
        false
    }

    /// Whether the node at table position `pos` can be reclaimed.
    fn entry_reclaimable(&self, pos: usize) -> (r: bool)
        requires
            self.wf(),
            pos < self.spec_nodes().len(),
        ensures
            r == reclaimable(*self, self.spec_nodes()[pos as int].id),
    {
        proof {
            self.lemma_index_at(pos as int);
        }
        let entry = &self.nodes[pos];
        entry.node.free_when_finished && !entry.node.processor.tail_time()
            && !self.has_incoming_edge(entry.id)
    }

    /// Reclaim every node that is marked to be freed, reports no tail
    /// time and has no feeding connection left, dropping its
    /// connections with it; run between render quanta.  Which nodes go
    /// is judged against the graph as it stands when the pass begins.
    pub fn reclaim_finished(&mut self)
        requires
            old(self).wf(),
        ensures
            final(self).wf(),
            final(self).spec_nodes() == old(self).spec_nodes().filter(
                keep_entry_pred(*old(self)),
            ),
            final(self).spec_edges() == old(self).spec_edges().filter(
                keep_edge_pred(*old(self)),
            ),
            final(self).contains_node(0) ==> contains_id(final(self).spec_ordered(), 0),
            forall|id: u64|
                #[trigger] contains_id(final(self).spec_ordered(), id)
                    <==> (final(self).contains_node(id) && feeds_destination(
                    final(self).spec_edges(),
                    final(self).node_ids(),
                    id,
                )),
            cycle_free_into(final(self).spec_edges(), final(self).node_ids()) ==> topo_sorted(
                final(self).spec_edges(),
                final(self).node_ids(),
                final(self).spec_ordered(),
            ),
    {
        let ghost g0 = *self;
        let ghost epred = keep_entry_pred(g0);
        let ghost gpred = keep_edge_pred(g0);
        // decide, against the unmodified graph, which node of each
        // position goes and which edge stays
        let nn = self.nodes.len();
        let mut flags: Vec<bool> = Vec::new();
        let mut k: usize = 0;
        while k < nn
            invariant
                k <= nn,
                nn == self.spec_nodes().len(),
                *self == g0,
                self.wf(),
                flags@.len() == k,
                forall|l: int|
                    0 <= l < k ==> #[trigger] flags@[l] == reclaimable(
                        g0,
                        g0.spec_nodes()[l].id,
                    ),
            decreases nn - k,
        {
            let r = self.entry_reclaimable(k);
            flags.push(r);
            k += 1;
        }
        let ne = self.edges.len();
        let mut kept_edges: Vec<Edge> = Vec::new();
        let mut f: usize = 0;
        proof {
            reveal(Seq::filter);
            assert(self.spec_edges().take(0) =~= Seq::<Edge>::empty());
            assert(kept_edges@ == self.spec_edges().take(0).filter(gpred));
        }
        while f < ne
            invariant
                f <= ne,
                ne == self.spec_edges().len(),
                *self == g0,
                self.wf(),
                gpred == keep_edge_pred(g0),
                kept_edges@ == self.spec_edges().take(f as int).filter(gpred),
            decreases ne - f,
        {
            let e = self.edges[f];
            let ghost taken = self.spec_edges().take(f as int);
            proof {
                reveal(Seq::filter);
                assert(self.spec_edges().take(f + 1) =~= taken.push(e));
                assert(taken.push(e).drop_last() =~= taken);
            }
            let src_gone = match self.find_node(e.src.0) {
                Some(p) => self.entry_reclaimable(p),
                None => false,
            };
            let dst_gone = match self.find_node(e.dst.0) {
                Some(p) => self.entry_reclaimable(p),
                None => false,
            };
            proof {
                assert(src_gone == reclaimable(g0, e.src.0)) by {
                    if self.contains_node(e.src.0) {
                        self.lemma_index_at(self.index_of(e.src.0));
                    }
                }
                assert(dst_gone == reclaimable(g0, e.dst.0)) by {
                    if self.contains_node(e.dst.0) {
                        self.lemma_index_at(self.index_of(e.dst.0));
                    }
                }
            }
            if !src_gone && !dst_gone {
                proof {
                    assert(gpred(e));
                }
                kept_edges.push(e);
                proof {
                    assert(kept_edges@ =~= taken.filter(gpred).push(e));
                }
            } else {
                proof {
                    assert(!gpred(e));
                    assert(kept_edges@ == taken.push(e).filter(gpred));
                }
            }
            f += 1;
        }
        proof {
            assert(self.spec_edges().take(ne as int) =~= self.spec_edges());
        }
        // remove the flagged nodes in place, preserving order
        let mut o: usize = 0;
        let mut k2: usize = 0;
        proof {
            reveal(Seq::filter);
            assert(g0.spec_nodes().take(0) =~= Seq::<NodeEntry>::empty());
            assert(self.spec_nodes() =~= g0.spec_nodes().take(0).filter(epred)
                + g0.spec_nodes().skip(0));
        }
        while o < nn
            invariant
                o <= nn,
                nn == g0.spec_nodes().len(),
                epred == keep_entry_pred(g0),
                flags@.len() == nn,
                forall|l: int|
                    0 <= l < nn ==> #[trigger] flags@[l] == reclaimable(
                        g0,
                        g0.spec_nodes()[l].id,
                    ),
                k2 == g0.spec_nodes().take(o as int).filter(epred).len(),
                self.spec_nodes() == g0.spec_nodes().take(o as int).filter(epred)
                    + g0.spec_nodes().skip(o as int),
                self.spec_edges() == g0.spec_edges(),
                self.spec_ordered() == g0.spec_ordered(),
            decreases nn - o,
        {
            let ghost taken = g0.spec_nodes().take(o as int);
            proof {
                reveal(Seq::filter);
                assert(g0.spec_nodes().take(o + 1) =~= taken.push(g0.spec_nodes()[o as int]));
                assert(taken.push(g0.spec_nodes()[o as int]).drop_last() =~= taken);
                taken.filter_lemma(epred);
                assert(k2 < self.spec_nodes().len());
                assert(self.spec_nodes()[k2 as int] == g0.spec_nodes()[o as int]);
            }
            if flags[o] {
                proof {
                    assert(!epred(g0.spec_nodes()[o as int]));
                }
                let _gone = self.nodes.remove(k2);
                proof {
                    assert(self.spec_nodes() =~= g0.spec_nodes().take(o + 1).filter(epred)
                        + g0.spec_nodes().skip(o + 1));
                }
            } else {
                proof {
                    assert(epred(g0.spec_nodes()[o as int]));
                    assert(g0.spec_nodes().take(o + 1).filter(epred) == taken.filter(
                        epred,
                    ).push(g0.spec_nodes()[o as int]));
                    assert(self.spec_nodes() =~= g0.spec_nodes().take(o + 1).filter(epred)
                        + g0.spec_nodes().skip(o + 1));
                }
                k2 += 1;
            }
            o += 1;
        }
        proof {
            assert(g0.spec_nodes().take(nn as int) =~= g0.spec_nodes());
            assert(g0.spec_nodes().skip(nn as int) =~= Seq::<NodeEntry>::empty());
            assert(self.spec_nodes() =~= g0.spec_nodes().filter(epred));
        }
        self.edges = kept_edges;
        self.ordered = Vec::new();
        proof {
            // surviving entries keep distinct ids and stay well formed
            assert forall|a: int, b: int| 0 <= a < b < self.spec_nodes().len() implies (
            #[trigger] self.spec_nodes()[a]).id != (#[trigger] self.spec_nodes()[b]).id by {
                lemma_entry_filter_distinct(g0.spec_nodes(), epred, a, b);
            };
            assert forall|a: int| 0 <= a < self.spec_nodes().len() implies node_wf(
                (#[trigger] self.spec_nodes()[a]).node,
            ) by {
                g0.spec_nodes().filter_lemma(epred);
                lemma_entry_filter_member(g0.spec_nodes(), epred, a);
                let w = choose|w: int|
                    0 <= w < g0.spec_nodes().len() && g0.spec_nodes()[w] == self.spec_nodes()[a];
                assert(node_wf(g0.spec_nodes()[w].node));
            };
            assert forall|a: int, b: int| 0 <= a < b < self.spec_edges().len() implies (
            #[trigger] self.spec_edges()[a]) != (#[trigger] self.spec_edges()[b]) by {
                lemma_filter_distinct(g0.spec_edges(), gpred, a, b);
            };
            assert(distinct_ids(self.spec_ordered()));
        }
        self.order_nodes();
    }
}

/// Positions of a filtered, duplicate-free entry sequence hold entries
/// with distinct ids.
proof fn lemma_entry_filter_distinct(
    s: Seq<NodeEntry>,
    pred: spec_fn(NodeEntry) -> bool,
    k: int,
    l: int,
)
    requires
        forall|a: int, b: int| 0 <= a < b < s.len() ==> (#[trigger] s[a]).id != (#[trigger] s[b]).id,
        0 <= k < l < s.filter(pred).len(),
    ensures
        s.filter(pred)[k].id != s.filter(pred)[l].id,
    decreases s.len(),
{
    reveal(Seq::filter);
    s.filter_lemma(pred);
    if s.len() > 0 {
        let butlast = s.drop_last();
        assert(forall|a: int, b: int|
            0 <= a < b < butlast.len() ==> (#[trigger] butlast[a]).id != (
            #[trigger] butlast[b]).id);
        if pred(s.last()) {
            assert(s.filter(pred) == butlast.filter(pred).push(s.last()));
            if l < s.filter(pred).len() - 1 {
                lemma_entry_filter_distinct(butlast, pred, k, l);
            } else {
                let x = butlast.filter(pred)[k];
                butlast.filter_lemma(pred);
                lemma_entry_filter_member(butlast, pred, k);
                let w = choose|w: int| 0 <= w < butlast.len() && butlast[w] == x;
                assert(s[w] == butlast[w]);
                assert(s[w].id != s[s.len() - 1].id);
            }
        } else {
            assert(s.filter(pred) == butlast.filter(pred));
            lemma_entry_filter_distinct(butlast, pred, k, l);
        }
    }
}

/// Every element of a filtered entry sequence occurs in the original.
proof fn lemma_entry_filter_member(s: Seq<NodeEntry>, pred: spec_fn(NodeEntry) -> bool, k: int)
    requires
        0 <= k < s.filter(pred).len(),
    ensures
        exists|w: int| 0 <= w < s.len() && s[w] == s.filter(pred)[k],
    decreases s.len(),
{
    reveal(Seq::filter);
    s.filter_lemma(pred);
    if s.len() > 0 {
        let butlast = s.drop_last();
        if pred(s.last()) {
            assert(s.filter(pred) == butlast.filter(pred).push(s.last()));
            if k < s.filter(pred).len() - 1 {
                lemma_entry_filter_member(butlast, pred, k);
                let w = choose|w: int| 0 <= w < butlast.len() && butlast[w] == s.filter(pred)[k];
                assert(s[w] == s.filter(pred)[k]);
            } else {
                assert(s[s.len() - 1] == s.filter(pred)[k]);
            }
        } else {
            assert(s.filter(pred) == butlast.filter(pred));
            lemma_entry_filter_member(butlast, pred, k);
            let w = choose|w: int| 0 <= w < butlast.len() && butlast[w] == s.filter(pred)[k];
            assert(s[w] == s.filter(pred)[k]);
        }
    }
}

impl RenderThread {
    /// Reclaim finished nodes between quanta (see
    /// [`Graph::reclaim_finished`]).
    pub fn reclaim_finished(&mut self)
        requires
            old(self).wf(),
        ensures
            final(self).wf(),
            final(self).spec_sample_rate() == old(self).spec_sample_rate(),
            final(self).spec_channels() == old(self).spec_channels(),
            final(self).spec_frames_played() == old(self).spec_frames_played(),
            final(self).spec_graph().spec_nodes() == old(self).spec_graph().spec_nodes().filter(
                keep_entry_pred(old(self).spec_graph()),
            ),
            final(self).spec_graph().spec_edges() == old(self).spec_graph().spec_edges().filter(
                keep_edge_pred(old(self).spec_graph()),
            ),
    {
        self.graph.reclaim_finished();
    }
}

} // verus!

verus! {

impl Graph {
    /// Like [`Graph::input_fold`], but treating the node with id `skip`
    /// as absent: during the render pass a node's own output buffers
    /// are taken out of the table while it renders, so a connection
    /// looping straight back into it contributes silence.
    pub open spec fn input_fold_except(
        &self,
        skip: u64,
        upto: int,
        dst: u64,
        port: u32,
        channels: nat,
        interp: ChannelInterpretation,
    ) -> Seq<Seq<i64>>
        decreases upto,
    {
        if upto <= 0 {
            Seq::new(channels, |c: int| silent_channel(BUFFER_SIZE as nat))
        } else {
            let prev = self.input_fold_except(skip, upto - 1, dst, port, channels, interp);
            let e = self.spec_edges()[upto - 1];
            if e.dst.0 == dst && e.dst_port == port && e.dst_port != MAX_PORT && e.src.0 != skip
                && self.contains_node(e.src.0) && e.src_port < self.node_of(
                e.src.0,
            ).buffers@.len() {
                add_spec(
                    prev,
                    self.node_of(e.src.0).buffers@[e.src_port as int]@,
                    BUFFER_SIZE as nat,
                    interp,
                )
            } else {
                prev
            }
        }
    }
}

/// The input fold on a table with one node taken out agrees with the
/// fold on the full table that skips that node's id.
proof fn lemma_fold_except(
    g: Graph,
    g2: Graph,
    pos: int,
    skip: u64,
    upto: int,
    dst: u64,
    port: u32,
    channels: nat,
    interp: ChannelInterpretation,
)
    requires
        g.nodes_wf(),
        0 <= pos < g.spec_nodes().len(),
        g2.spec_nodes() == g.spec_nodes().remove(pos),
        g2.spec_edges() == g.spec_edges(),
        skip == g.spec_nodes()[pos].id,
        0 <= upto <= g.spec_edges().len(),
    ensures
        g2.input_fold(upto, dst, port, channels, interp) == g.input_fold_except(
            skip,
            upto,
            dst,
            port,
            channels,
            interp,
        ),
    decreases upto,
{
    assert(g2.nodes_wf()) by {
        assert forall|a: int, b: int| 0 <= a < b < g2.spec_nodes().len() implies (
        #[trigger] g2.spec_nodes()[a]).id != (#[trigger] g2.spec_nodes()[b]).id by {
            let aa = if a < pos {
                a
            } else {
                a + 1
            };
            let bb = if b < pos {
                b
            } else {
                b + 1
            };
            assert(g2.spec_nodes()[a] == g.spec_nodes()[aa]);
            assert(g2.spec_nodes()[b] == g.spec_nodes()[bb]);
        };
        assert forall|a: int| 0 <= a < g2.spec_nodes().len() implies node_wf(
            (#[trigger] g2.spec_nodes()[a]).node,
        ) by {
            let aa = if a < pos {
                a
            } else {
                a + 1
            };
            assert(g2.spec_nodes()[a] == g.spec_nodes()[aa]);
        };
    }
    if upto > 0 {
        lemma_fold_except(g, g2, pos, skip, upto - 1, dst, port, channels, interp);
        let e = g.spec_edges()[upto - 1];
        if e.src.0 == skip {
            assert(!g2.contains_node(skip)) by {
                if g2.contains_node(skip) {
                    let w = choose|w: int|
                        0 <= w < g2.node_ids().len() && g2.node_ids()[w] == skip;
                    assert(g2.spec_nodes()[w].id == skip);
                    let ww = if w < pos {
                        w
                    } else {
                        w + 1
                    };
                    assert(g2.spec_nodes()[w] == g.spec_nodes()[ww]);
                    assert(ww != pos);
                    if ww < pos {
                        assert(g.spec_nodes()[ww].id != g.spec_nodes()[pos].id);
                    } else {
                        assert(g.spec_nodes()[pos].id != g.spec_nodes()[ww].id);
                    }
                }
            }
        } else {
            assert(g2.contains_node(e.src.0) == g.contains_node(e.src.0) && (g.contains_node(
                e.src.0,
            ) ==> g2.node_of(e.src.0) == g.node_of(e.src.0))) by {
                if g.contains_node(e.src.0) {
                    let w = choose|w: int|
                        0 <= w < g.node_ids().len() && g.node_ids()[w] == e.src.0;
                    assert(g.spec_nodes()[w].id == e.src.0);
                    g.lemma_index_at(w);
                    assert(w != pos);
                    let w2 = if w < pos {
                        w
                    } else {
                        w - 1
                    };
                    assert(g2.spec_nodes()[w2] == g.spec_nodes()[w]);
                    assert(g2.node_ids()[w2] == e.src.0);
                    assert(g2.contains_node(e.src.0));
                    g2.lemma_index_at(w2);
                } else if g2.contains_node(e.src.0) {
                    let w = choose|w: int|
                        0 <= w < g2.node_ids().len() && g2.node_ids()[w] == e.src.0;
                    assert(g2.spec_nodes()[w].id == e.src.0);
                    let ww = if w < pos {
                        w
                    } else {
                        w + 1
                    };
                    assert(g2.spec_nodes()[w] == g.spec_nodes()[ww]);
                    assert(g.node_ids()[ww] == e.src.0);
                    assert(g.contains_node(e.src.0));
                }
            }
        }
    }
}

/// The mixed input buffer that the render pass hands a node on one
/// input port: everything feeding the port is summed into a buffer that
/// starts as a single silent channel and grows to the largest source
/// channel count encountered (the node's own output counts as silence),
/// then the result is coerced to the effective channel count the node's
/// count mode resolves to: the source maximum under `Max`, that maximum
/// clamped to the configured count under `ClampedMax`, and exactly the
/// configured count under `Explicit`.
pub open spec fn mixed_input(
    pre: Graph,
    idx: NodeIndex,
    port: u32,
    cfg: ChannelConfig,
) -> Seq<Seq<i64>> {
    let folded = pre.input_fold_except(
        idx.0,
        pre.spec_edges().len() as int,
        idx.0,
        port,
        1,
        cfg.spec_interpretation(),
    );
    let cur = folded.len();
    let target: nat = match cfg.spec_count_mode() {
        ChannelCountMode::Max => cur,
        ChannelCountMode::Explicit => cfg.spec_count() as nat,
        ChannelCountMode::ClampedMax => if cur < cfg.spec_count() {
            cur
        } else {
            cfg.spec_count() as nat
        },
    };
    mix_spec(folded, BUFFER_SIZE as nat, target, cfg.spec_interpretation())
}

/// What rendering one node of the order does to the graph: the node's
/// quantum counter is bumped, and its processor and output buffers
/// step by [`crate::node::process_rel`] on the mixed inputs of the
/// graph as it stood before this node's turn.  Every other node is
/// untouched.
pub open spec fn render_step(
    pre: Graph,
    idx: NodeIndex,
    post: Graph,
    timestamp: Timestamp,
    rate: SampleRate,
) -> bool {
    &&& pre.contains_node(idx.0)
    &&& post.spec_edges() == pre.spec_edges()
    &&& post.spec_ordered() == pre.spec_ordered()
    &&& post.spec_nodes().len() == pre.spec_nodes().len()
    &&& forall|k: int|
        0 <= k < pre.spec_nodes().len() && k != pre.index_of(idx.0)
            ==> #[trigger] post.spec_nodes()[k] == pre.spec_nodes()[k]
    &&& post.spec_nodes()[pre.index_of(idx.0)].id == idx.0
    &&& {
        let n0 = pre.node_of(idx.0);
        let n1 = post.spec_nodes()[pre.index_of(idx.0)].node;
        &&& same_shape(n1, n0)
        &&& n1.quanta_processed == bump(n0.quanta_processed)
        &&& exists|ins: Seq<AudioBuffer>|
            {
                &&& ins.len() == n0.inputs
                &&& (forall|p: int|
                    0 <= p < ins.len() ==> (#[trigger] ins[p])@ == mixed_input(
                        pre,
                        idx,
                        p as u32,
                        n0.channel_config,
                    ))
                &&& #[trigger] crate::node::process_rel(
                    n0.processor,
                    ins,
                    n0.buffers@,
                    n1.processor,
                    n1.buffers@,
                    timestamp,
                    rate,
                )
            }
    }
}

/// A witness chain for [`render_quantum`]: `gs` records the graph
/// before and after each node's turn.
pub open spec fn render_chain_ok(
    pre: Graph,
    order: Seq<NodeIndex>,
    post: Graph,
    timestamp: Timestamp,
    rate: SampleRate,
    gs: Seq<Graph>,
) -> bool {
    &&& gs.len() == order.len() + 1
    &&& gs[0] == pre
    &&& gs[order.len() as int] == post
    &&& forall|i: int|
        0 <= i < order.len() ==> #[trigger] render_step(gs[i], order[i], gs[i + 1], timestamp, rate)
}

/// The graph `post` results from rendering one quantum on `pre`: every
/// node of the cached order takes one [`render_step`], in order.
pub open spec fn render_quantum(pre: Graph, post: Graph, timestamp: Timestamp, rate: SampleRate) -> bool {
    exists|gs: Seq<Graph>|
        #[trigger] render_chain_ok(pre, pre.spec_ordered(), post, timestamp, rate, gs)
}

} // verus!

verus! {

/// What replacing a node's channel settings does to the graph: only the
/// one node's `channel_config` changes; unknown ids change nothing.
pub open spec fn config_set_step(
    pre: Graph,
    id: u64,
    channel_config: ChannelConfig,
    post: Graph,
) -> bool {
    &&& post.spec_edges() == pre.spec_edges()
    &&& post.spec_ordered() == pre.spec_ordered()
    &&& post.spec_nodes().len() == pre.spec_nodes().len()
    &&& forall|k: int|
        0 <= k < pre.spec_nodes().len() ==> (#[trigger] post.spec_nodes()[k]).id
            == pre.spec_nodes()[k].id
    &&& forall|k: int|
        0 <= k < pre.spec_nodes().len() && pre.spec_nodes()[k].id != id ==> (
        #[trigger] post.spec_nodes()[k]) == pre.spec_nodes()[k]
    &&& (pre.contains_node(id) ==> {
        let n0 = pre.node_of(id);
        let n1 = post.node_of(id);
        &&& n1.channel_config == channel_config
        &&& n1.processor == n0.processor
        &&& n1.buffers == n0.buffers
        &&& n1.inputs == n0.inputs
        &&& n1.outputs == n0.outputs
        &&& n1.free_when_finished == n0.free_when_finished
        &&& n1.quanta_processed == n0.quanta_processed
    })
    &&& (!pre.contains_node(id) ==> post == pre)
}

/// What scheduling a source does to the graph: the one node's media
/// scheduler gets the new start (or stop) time; nodes that are no media
/// source, and unknown ids, change nothing.
pub open spec fn schedule_step(
    pre: Graph,
    id: u64,
    t: Timestamp,
    is_start: bool,
    post: Graph,
) -> bool {
    &&& post.spec_edges() == pre.spec_edges()
    &&& post.spec_ordered() == pre.spec_ordered()
    &&& post.spec_nodes().len() == pre.spec_nodes().len()
    &&& forall|k: int|
        0 <= k < pre.spec_nodes().len() ==> (#[trigger] post.spec_nodes()[k]).id
            == pre.spec_nodes()[k].id
    &&& forall|k: int|
        0 <= k < pre.spec_nodes().len() && pre.spec_nodes()[k].id != id ==> (
        #[trigger] post.spec_nodes()[k]) == pre.spec_nodes()[k]
    &&& (pre.contains_node(id) ==> {
        let n0 = pre.node_of(id);
        let n1 = post.node_of(id);
        &&& n1.channel_config == n0.channel_config
        &&& n1.buffers == n0.buffers
        &&& n1.inputs == n0.inputs
        &&& n1.outputs == n0.outputs
        &&& n1.free_when_finished == n0.free_when_finished
        &&& n1.quanta_processed == n0.quanta_processed
        &&& (n0.processor matches Processor::MediaStream(m) ==> n1.processor
            matches Processor::MediaStream(m2) && {
            &&& m2.stream == m.stream
            &&& m2.pos == m.pos
            &&& m2.finished == m.finished
            &&& m2.scheduler.spec_start() == (if is_start {
                t
            } else {
                m.scheduler.spec_start()
            })
            &&& m2.scheduler.spec_stop() == (if is_start {
                m.scheduler.spec_stop()
            } else {
                t
            })
        })
        &&& (!(n0.processor matches Processor::MediaStream(m)) ==> n1 == n0)
    })
    &&& (!pre.contains_node(id) ==> post == pre)
}

impl Graph {
    /// Replace the channel mixing settings of the node with the given
    /// id; unknown ids are ignored.
    pub fn set_channel_config(&mut self, id: u64, channel_config: ChannelConfig)
        requires
            old(self).wf(),
            channel_config.spec_count() >= 1,
        ensures
            final(self).wf(),
            config_set_step(*old(self), id, channel_config, *final(self)),
    {
        let ghost pre = *self;
        match self.find_node(id) {
            Some(pos) => {
                let mut entry = self.nodes.remove(pos);
                entry.node.channel_config = channel_config;
                self.nodes.insert(pos, entry);
                proof {
                    self.lemma_touch_one(pre, id, pos as int);
                }
            },
            None => {},
        }
    }

    /// Schedule playback start of the media source with the given id;
    /// other nodes, and unknown ids, are ignored.
    pub fn schedule_start(&mut self, id: u64, start: Timestamp)
        requires
            old(self).wf(),
        ensures
            final(self).wf(),
            schedule_step(*old(self), id, start, true, *final(self)),
    {
        let ghost pre = *self;
        match self.find_node(id) {
            Some(pos) => {
                let mut entry = self.nodes.remove(pos);
                match &mut entry.node.processor {
                    Processor::MediaStream(m) => {
                        m.scheduler.start_at(start);
                    },
                    _ => {},
                }
                self.nodes.insert(pos, entry);
                proof {
                    self.lemma_touch_one(pre, id, pos as int);
                }
            },
            None => {},
        }
    }

    /// Schedule playback stop of the media source with the given id;
    /// other nodes, and unknown ids, are ignored.
    pub fn schedule_stop(&mut self, id: u64, stop: Timestamp)
        requires
            old(self).wf(),
        ensures
            final(self).wf(),
            schedule_step(*old(self), id, stop, false, *final(self)),
    {
        let ghost pre = *self;
        match self.find_node(id) {
            Some(pos) => {
                let mut entry = self.nodes.remove(pos);
                match &mut entry.node.processor {
                    Processor::MediaStream(m) => {
                        m.scheduler.stop_at(stop);
                    },
                    _ => {},
                }
                self.nodes.insert(pos, entry);
                proof {
                    self.lemma_touch_one(pre, id, pos as int);
                }
            },
            None => {},
        }
    }

    /// After a remove-and-reinsert of the entry at `pos` (with the same
    /// id, same buffer shape and a well-formed processor), lookups and
    /// well-formedness carry over from `pre`.
    proof fn lemma_touch_one(&self, pre: Graph, id: u64, pos: int)
        requires
            pre.wf(),
            0 <= pos < pre.spec_nodes().len(),
            pre.spec_nodes()[pos].id == id,
            self.spec_nodes().len() == pre.spec_nodes().len(),
            self.spec_edges() == pre.spec_edges(),
            self.spec_ordered() == pre.spec_ordered(),
            self.spec_nodes()[pos].id == id,
            node_wf(self.spec_nodes()[pos].node),
            forall|k: int|
                0 <= k < pre.spec_nodes().len() && k != pos ==> #[trigger] self.spec_nodes()[k]
                    == pre.spec_nodes()[k],
        ensures
            self.wf(),
            pre.contains_node(id),
            self.contains_node(id),
            pre.index_of(id) == pos,
            self.index_of(id) == pos,
            pre.node_of(id) == pre.spec_nodes()[pos].node,
            self.node_of(id) == self.spec_nodes()[pos].node,
            forall|k: int|
                0 <= k < pre.spec_nodes().len() ==> (#[trigger] self.spec_nodes()[k]).id
                    == pre.spec_nodes()[k].id,
    {
        pre.lemma_index_at(pos);
        assert forall|k: int, l: int| 0 <= k < l < self.spec_nodes().len() implies (
        #[trigger] self.spec_nodes()[k]).id != (#[trigger] self.spec_nodes()[l]).id by {
            assert(self.spec_nodes()[k].id == pre.spec_nodes()[k].id);
            assert(self.spec_nodes()[l].id == pre.spec_nodes()[l].id);
        };
        assert forall|k: int| 0 <= k < self.spec_nodes().len() implies node_wf(
            (#[trigger] self.spec_nodes()[k]).node,
        ) by {
            if k != pos {
                assert(self.spec_nodes()[k] == pre.spec_nodes()[k]);
            }
        };
        assert forall|k: int| 0 <= k < self.spec_ordered().len() implies self.contains_node(
            (#[trigger] self.spec_ordered()[k]).0,
        ) by {
            assert(pre.contains_node(pre.spec_ordered()[k].0));
            let w = choose|w: int|
                0 <= w < pre.node_ids().len() && pre.node_ids()[w] == pre.spec_ordered()[k].0;
            assert(self.node_ids()[w] == pre.spec_ordered()[k].0);
        };
        assert(self.node_ids()[pos] == id);
        assert(self.contains_node(id));
        self.lemma_index_at(pos);
    }
}

} // verus!
