//! The graph of a pipeline: sources, processors and sinks, and the edges
//! that lead from an output port of one node to an input port of another.
//! The graph never holds a cycle.

use vstd::prelude::*;
use crate::errors::{ExecutionError, NodeHandle, PortHandle};

verus! {

/// A `daggy::Dag` without weights on its nodes and edges.
#[verifier::external_body]
pub struct AcyclicGraph {
    graph: daggy::Dag<(), (), usize>,
}

/// `daggy::WouldCycle`: the refusal of an edge that would close a cycle,
/// with the weight of the edge.
#[verifier::external_type_specification]
#[verifier::external_body]
#[verifier::reject_recursive_types(E)]
pub struct ExWouldCycle<E>(daggy::WouldCycle<E>);

/// The edges of a `daggy::Dag`, each as the indices of the node it leaves
/// and of the node it enters, in the order in which they were added.
pub uninterp spec fn dag_edges(graph: AcyclicGraph) -> Seq<(usize, usize)>;

/// The number of nodes of a `daggy::Dag`.
pub uninterp spec fn dag_nodes(graph: AcyclicGraph) -> nat;

/// Whether `path` follows edges from node to node.
pub open spec fn is_path(edges: Seq<(usize, usize)>, path: Seq<usize>) -> bool {
    &&& path.len() >= 1
    &&& forall|i: int| 0 <= i < path.len() - 1 ==> edges.contains((#[trigger] path[i], path[i + 1]))
}

/// Whether edges lead from `a` to `b`. A node is reached from itself.
pub open spec fn reachable(edges: Seq<(usize, usize)>, a: usize, b: usize) -> bool {
    exists|path: Seq<usize>| is_path(edges, path) && path.first() == a && path.last() == b
}

/// Whether no edges lead from a node back to it.
pub open spec fn acyclic(edges: Seq<(usize, usize)>) -> bool {
    forall|path: Seq<usize>| is_path(edges, path) && path.len() >= 2 ==> path.first() != path.last()
}

/// Whether `rank` rises along every edge.
pub open spec fn ranked(edges: Seq<(usize, usize)>, rank: spec_fn(usize) -> int) -> bool {
    forall|i: int| 0 <= i < edges.len() ==> rank((#[trigger] edges[i]).0) < rank(edges[i].1)
}

/// `daggy::Dag::new`: a graph without nodes and edges.
#[verifier::external_body]
fn graph_new() -> (graph: AcyclicGraph)
    ensures
        dag_nodes(graph) == 0,
        dag_edges(graph) == Seq::<(usize, usize)>::empty(),
{
    AcyclicGraph { graph: daggy::Dag::new() }
}

/// `daggy::Dag::add_node`: adds a node behind the others and gives its
/// index. The edges stay.
#[verifier::external_body]
fn graph_add_node(graph: &mut AcyclicGraph) -> (index: usize)
    ensures
        index == dag_nodes(*old(graph)),
        dag_nodes(*final(graph)) == dag_nodes(*old(graph)) + 1,
        dag_edges(*final(graph)) == dag_edges(*old(graph)),
{
    graph.graph.add_node(()).index()
}

/// `daggy::Dag::add_edge`: adds the edge from `a` to `b` behind the others
/// unless edges lead from `b` to `a` already, which it refuses. It panics
/// on a node that is not in the graph. In a graph without cycles the
/// checks that it leaves out cannot fail.
#[verifier::external_body]
fn graph_add_edge(graph: &mut AcyclicGraph, a: usize, b: usize) -> (res: Result<
    usize,
    daggy::WouldCycle<()>,
>)
    requires
        a < dag_nodes(*old(graph)),
        b < dag_nodes(*old(graph)),
        acyclic(dag_edges(*old(graph))),
    ensures
        dag_nodes(*final(graph)) == dag_nodes(*old(graph)),
        res is Err <==> reachable(dag_edges(*old(graph)), b, a),
        res is Err ==> dag_edges(*final(graph)) == dag_edges(*old(graph)),
        res is Ok ==> dag_edges(*final(graph)) == dag_edges(*old(graph)).push((a, b)),
{
    let from = daggy::NodeIndex::new(a);
    let to = daggy::NodeIndex::new(b);
    match graph.graph.add_edge(from, to, ()) {
        Ok(edge) => Ok(edge.index()),
        Err(e) => Err(e),
    }
}

impl<T> From<daggy::WouldCycle<T>> for ExecutionError {
    /// The refusal of an edge as an error of the execution.
    fn from(e: daggy::WouldCycle<T>) -> (res: Self) {
        ExecutionError::WouldCycle
    }
}

impl<T> vstd::std_specs::convert::FromSpecImpl<daggy::WouldCycle<T>> for ExecutionError {
    open spec fn obeys_from_spec() -> bool {
        true
    }

    open spec fn from_spec(e: daggy::WouldCycle<T>) -> Self {
        ExecutionError::WouldCycle
    }
}

/// Along a path the rank does not fall, and it rises where the path has an
/// edge.
proof fn lemma_rank_along_path(
    edges: Seq<(usize, usize)>,
    rank: spec_fn(usize) -> int,
    path: Seq<usize>,
)
    requires
        ranked(edges, rank),
        is_path(edges, path),
    ensures
        rank(path.first()) <= rank(path.last()),
        path.len() >= 2 ==> rank(path.first()) < rank(path.last()),
    decreases path.len(),
{
    if path.len() >= 2 {
        let shorter = path.drop_last();
        assert forall|i: int| 0 <= i < shorter.len() - 1 implies edges.contains(
            (#[trigger] shorter[i], shorter[i + 1]),
        ) by {
            assert(edges.contains((path[i], path[i + 1])));
        }
        lemma_rank_along_path(edges, rank, shorter);
        let n = path.len() - 2;
        assert(edges.contains((path[n], path[n + 1])));
        let k = choose|k: int| 0 <= k < edges.len() && edges[k] == (path[n], path[n + 1]);
        assert(rank(edges[k].0) < rank(edges[k].1));
    }
}

/// Edges that a rank rises along hold no cycle.
pub proof fn lemma_ranked_is_acyclic(edges: Seq<(usize, usize)>, rank: spec_fn(usize) -> int)
    requires
        ranked(edges, rank),
    ensures
        acyclic(edges),
{
    assert forall|path: Seq<usize>| is_path(edges, path) && path.len() >= 2 implies path.first()
        != path.last() by {
        lemma_rank_along_path(edges, rank, path);
    }
}

/// What is reached from a node that is reached is reached.
proof fn lemma_reachable_step(edges: Seq<(usize, usize)>, a: usize, b: usize, c: usize)
    requires
        reachable(edges, a, b),
        edges.contains((b, c)),
    ensures
        reachable(edges, a, c),
{
    let path = choose|path: Seq<usize>| is_path(edges, path) && path.first() == a && path.last() == b;
    let longer = path.push(c);
    assert forall|i: int| 0 <= i < longer.len() - 1 implies edges.contains(
        (#[trigger] longer[i], longer[i + 1]),
    ) by {
        if i < path.len() - 1 {
            assert(edges.contains((path[i], path[i + 1])));
        }
    }
    assert(is_path(edges, longer) && longer.first() == a && longer.last() == c);
}

/// An edge from `a` to `b` can join edges that a rank rises along, unless
/// edges lead from `b` to `a`: a rank rises along all of them then.
pub proof fn lemma_edge_keeps_rank(
    edges: Seq<(usize, usize)>,
    rank: spec_fn(usize) -> int,
    a: usize,
    b: usize,
) -> (lifted: spec_fn(usize) -> int)
    requires
        ranked(edges, rank),
        !reachable(edges, b, a),
    ensures
        ranked(edges.push((a, b)), lifted),
{
    let lift: int = if rank(a) >= rank(b) {
        rank(a) - rank(b) + 1
    } else {
        0
    };
    let lifted = |x: usize|
        if reachable(edges, b, x) {
            rank(x) + lift
        } else {
            rank(x)
        };
    let longer = edges.push((a, b));
    assert forall|i: int| 0 <= i < longer.len() implies lifted((#[trigger] longer[i]).0) < lifted(
        longer[i].1,
    ) by {
        if i < edges.len() {
            let (u, v) = edges[i];
            assert(rank(edges[i].0) < rank(edges[i].1));
            if reachable(edges, b, u) {
                lemma_reachable_step(edges, b, u, v);
            }
        } else {
            let start = seq![b];
            assert(is_path(edges, start) && start.first() == b && start.last() == b);
            assert(reachable(edges, b, b));
        }
    }
    lifted
}

/// What a node is.
#[derive(Clone, Copy, Debug, PartialEq, Eq, Structural)]
pub enum NodeKind {
    Source,
    Processor,
    Sink,
}

/// A node: its handle, what it is, and the ports that it declares.
#[derive(Debug)]
pub struct Node {
    pub handle: NodeHandle,
    pub kind: NodeKind,
    pub input_ports: Vec<PortHandle>,
    pub output_ports: Vec<PortHandle>,
}

/// The mathematical value of a [`Node`].
pub struct NodeValue {
    pub handle: Seq<char>,
    pub kind: NodeKind,
    pub input_ports: Seq<PortHandle>,
    pub output_ports: Seq<PortHandle>,
}

impl View for Node {
    type V = NodeValue;

    open spec fn view(&self) -> NodeValue {
        NodeValue {
            handle: self.handle@,
            kind: self.kind,
            input_ports: self.input_ports@,
            output_ports: self.output_ports@,
        }
    }
}

/// A port of a node.
#[derive(Debug)]
pub struct Endpoint {
    pub node: NodeHandle,
    pub port: PortHandle,
}

impl Endpoint {
    pub fn new(node: NodeHandle, port: PortHandle) -> (res: Self)
        ensures
            res.node == node,
            res.port == port,
    {
        Endpoint { node, port }
    }
}

/// An edge, by the indices of its nodes: from an output port of one to an
/// input port of the other.
#[derive(Clone, Copy, Debug, PartialEq, Eq, Structural)]
pub struct Edge {
    pub from_node: usize,
    pub from_port: PortHandle,
    pub to_node: usize,
    pub to_port: PortHandle,
}

/// The graph of a pipeline.
pub struct Graph {
    pub graph: AcyclicGraph,
    pub nodes: Vec<Node>,
    pub edges: Vec<Edge>,
}

/// The mathematical value of a [`Graph`].
pub struct GraphValue {
    pub nodes: Seq<NodeValue>,
    pub edges: Seq<Edge>,
}

/// The nodes as values.
pub open spec fn nodes_view(nodes: Seq<Node>) -> Seq<NodeValue> {
    Seq::new(nodes.len(), |i: int| nodes[i]@)
}

/// The edges as pairs of node indices.
pub open spec fn edge_pairs(edges: Seq<Edge>) -> Seq<(usize, usize)> {
    Seq::new(edges.len(), |i: int| (edges[i].from_node, edges[i].to_node))
}

impl View for Graph {
    type V = GraphValue;

    open spec fn view(&self) -> GraphValue {
        GraphValue { nodes: nodes_view(self.nodes@), edges: self.edges@ }
    }
}

/// Why the graph refuses something.
pub enum GraphFailure {
    WouldCycle,
    InvalidPortHandle(PortHandle),
    InvalidNodeHandle(Seq<char>),
    MissingInput { node: Seq<char>, port: PortHandle },
    DuplicateInput { node: Seq<char>, port: PortHandle },
    AlreadyExists(Seq<char>),
}

/// The refusal that an error stands for.
pub open spec fn graph_failure(e: ExecutionError) -> Option<GraphFailure> {
    match e {
        ExecutionError::WouldCycle => Some(GraphFailure::WouldCycle),
        ExecutionError::InvalidPortHandle(p) => Some(GraphFailure::InvalidPortHandle(p)),
        ExecutionError::InvalidNodeHandle(n) => Some(GraphFailure::InvalidNodeHandle(n@)),
        ExecutionError::MissingInput { node, port } => Some(
            GraphFailure::MissingInput { node: node@, port },
        ),
        ExecutionError::DuplicateInput { node, port } => Some(
            GraphFailure::DuplicateInput { node: node@, port },
        ),
        ExecutionError::MetadataAlreadyExists(n) => Some(GraphFailure::AlreadyExists(n@)),
        _ => None,
    }
}

/// The index of the first of the first `n` nodes with the handle.
pub open spec fn node_index(nodes: Seq<NodeValue>, handle: Seq<char>, n: nat) -> Option<usize>
    decreases n,
{
    if n == 0 {
        None
    } else {
        match node_index(nodes, handle, (n - 1) as nat) {
            Some(i) => Some(i),
            None => if nodes[n - 1].handle == handle {
                Some((n - 1) as usize)
            } else {
                None
            },
        }
    }
}

/// The graph with one more node, or the refusal of a handle that a node
/// has already.
pub open spec fn add_node_outcome(d: GraphValue, node: NodeValue) -> Result<GraphValue, GraphFailure> {
    if node_index(d.nodes, node.handle, d.nodes.len()) is Some {
        Err(GraphFailure::AlreadyExists(node.handle))
    } else {
        Ok(GraphValue { nodes: d.nodes.push(node), ..d })
    }
}

/// The graph with one more edge, or why the edge is refused: a handle that
/// names no node, the start first; a port that its node does not declare,
/// the output port first; or edges that lead back from the node that the
/// edge enters to the node that it leaves.
pub open spec fn connect_outcome(
    d: GraphValue,
    from_node: Seq<char>,
    from_port: PortHandle,
    to_node: Seq<char>,
    to_port: PortHandle,
) -> Result<GraphValue, GraphFailure> {
    match node_index(d.nodes, from_node, d.nodes.len()) {
        None => Err(GraphFailure::InvalidNodeHandle(from_node)),
        Some(f) => match node_index(d.nodes, to_node, d.nodes.len()) {
            None => Err(GraphFailure::InvalidNodeHandle(to_node)),
            Some(t) => if !d.nodes[f as int].output_ports.contains(from_port) {
                Err(GraphFailure::InvalidPortHandle(from_port))
            } else if !d.nodes[t as int].input_ports.contains(to_port) {
                Err(GraphFailure::InvalidPortHandle(to_port))
            } else if reachable(edge_pairs(d.edges), t, f) {
                Err(GraphFailure::WouldCycle)
            } else {
                Ok(
                    GraphValue {
                        edges: d.edges.push(
                            Edge { from_node: f, from_port, to_node: t, to_port },
                        ),
                        ..d
                    },
                )
            },
        },
    }
}

/// Whether `ports` holds `port`.
fn has_port(ports: &Vec<PortHandle>, port: PortHandle) -> (res: bool)
    ensures
        res == ports@.contains(port),
{
    let mut i: usize = 0;
    while i < ports.len()
        invariant
            i <= ports.len(),
            forall|j: int| 0 <= j < i ==> ports@[j] != port,
        decreases ports.len() - i,
    {
        if ports[i] == port {
            return true;
        }
        i += 1;
    }
    false
}

impl Graph {
    /// Whether the graph is in order: the nodes and edges that it lists are
    /// those of the graph that it holds, every edge joins nodes of the
    /// graph, and a rank rises along every edge.
    pub open spec fn wf(&self) -> bool {
        &&& dag_nodes(self.graph) == self.nodes@.len()
        &&& dag_edges(self.graph) == edge_pairs(self.edges@)
        &&& forall|i: int|
            0 <= i < self.edges@.len() ==> (#[trigger] self.edges@[i]).from_node < self.nodes@.len()
                && self.edges@[i].to_node < self.nodes@.len()
        &&& exists|rank: spec_fn(usize) -> int| ranked(edge_pairs(self.edges@), rank)
    }

    /// A graph without nodes.
    pub fn new() -> (res: Self)
        ensures
            res.wf(),
            res@.nodes.len() == 0,
            res@.edges.len() == 0,
    {
        let res = Graph { graph: graph_new(), nodes: Vec::new(), edges: Vec::new() };
        proof {
            assert(edge_pairs(res.edges@) =~= Seq::<(usize, usize)>::empty());
            let rank = |x: usize| 0int;
            assert(ranked(edge_pairs(res.edges@), rank));
        }
        res
    }

    /// The index of the node with the handle.
    pub fn find_node(&self, handle: &String) -> (res: Option<usize>)
        ensures
            res == node_index(self@.nodes, handle@, self@.nodes.len()),
            res matches Some(i) ==> i < self.nodes@.len(),
    {
        let mut i: usize = 0;
        while i < self.nodes.len()
            invariant
                i <= self.nodes.len(),
                node_index(self@.nodes, handle@, i as nat) is None,
            decreases self.nodes.len() - i,
        {
            if self.nodes[i].handle == *handle {
                proof {
                    lemma_node_index_found(self@.nodes, handle@, (i + 1) as nat, self@.nodes.len());
                }
                return Some(i);
            }
            i += 1;
        }
        None
    }

    /// Adds a node. A handle that a node has already is refused.
    pub fn add_node(
        &mut self,
        kind: NodeKind,
        handle: NodeHandle,
        input_ports: Vec<PortHandle>,
        output_ports: Vec<PortHandle>,
    ) -> (res: Result<(), ExecutionError>)
        requires
            old(self).wf(),
        ensures
            final(self).wf(),
            match add_node_outcome(
                old(self)@,
                NodeValue {
                    handle: handle@,
                    kind,
                    input_ports: input_ports@,
                    output_ports: output_ports@,
                },
            ) {
                Ok(d) => res is Ok && final(self)@ == d,
                Err(e) => res is Err && graph_failure(res->Err_0) == Some(e) && final(self)@
                    == old(self)@,
            },
    {
        if self.find_node(&handle).is_some() {
            return Err(ExecutionError::MetadataAlreadyExists(handle));
        }
        let ghost rank = choose|rank: spec_fn(usize) -> int| ranked(edge_pairs(self.edges@), rank);
        graph_add_node(&mut self.graph);
        self.nodes.push(Node { handle, kind, input_ports, output_ports });
        proof {
            assert(ranked(edge_pairs(self.edges@), rank));
            assert(self@.nodes =~= old(self)@.nodes.push(
                NodeValue {
                    handle: handle@,
                    kind,
                    input_ports: input_ports@,
                    output_ports: output_ports@,
                },
            ));
        }
        Ok(())
    }

    /// Adds the edge from an output port of one node to an input port of
    /// another. It is refused where an endpoint names no node or no port
    /// that its node declares, and where it would close a cycle.
    pub fn connect(&mut self, from: Endpoint, to: Endpoint) -> (res: Result<(), ExecutionError>)
        requires
            old(self).wf(),
        ensures
            final(self).wf(),
            match connect_outcome(old(self)@, from.node@, from.port, to.node@, to.port) {
                Ok(d) => res is Ok && final(self)@ == d,
                Err(e) => res is Err && graph_failure(res->Err_0) == Some(e) && final(self)@
                    == old(self)@,
            },
    {
        let f = match self.find_node(&from.node) {
            Some(i) => i,
            None => {
                return Err(ExecutionError::InvalidNodeHandle(from.node));
            },
        };
        let t = match self.find_node(&to.node) {
            Some(i) => i,
            None => {
                return Err(ExecutionError::InvalidNodeHandle(to.node));
            },
        };
        if !has_port(&self.nodes[f].output_ports, from.port) {
            return Err(ExecutionError::InvalidPortHandle(from.port));
        }
        if !has_port(&self.nodes[t].input_ports, to.port) {
            return Err(ExecutionError::InvalidPortHandle(to.port));
        }
        let ghost pairs = edge_pairs(self.edges@);
        let ghost rank = choose|rank: spec_fn(usize) -> int| ranked(pairs, rank);
        proof {
            lemma_ranked_is_acyclic(pairs, rank);
        }
        match graph_add_edge(&mut self.graph, f, t) {
            Ok(_) => {
                self.edges.push(
                    Edge { from_node: f, from_port: from.port, to_node: t, to_port: to.port },
                );
                proof {
                    let lifted = lemma_edge_keeps_rank(pairs, rank, f, t);
                    assert(edge_pairs(self.edges@) =~= pairs.push((f, t)));
                    assert(ranked(edge_pairs(self.edges@), lifted));
                }
                Ok(())
            },
            Err(e) => Err(ExecutionError::from(e)),
        }
    }
}

/// A handle found among the first nodes is found among all of them.
proof fn lemma_node_index_found(nodes: Seq<NodeValue>, handle: Seq<char>, n: nat, m: nat)
    requires
        n <= m,
        node_index(nodes, handle, n) is Some,
    ensures
        node_index(nodes, handle, m) == node_index(nodes, handle, n),
    decreases m - n,
{
    if n < m {
        lemma_node_index_found(nodes, handle, n, (m - 1) as nat);
    }
}

/// Acyclicity of the graph: no edges of a graph that is in order lead from
/// a node back to it, whatever was added to the graph and whatever was
/// refused.
pub proof fn lemma_graph_is_acyclic(dag: &Graph)
    requires
        dag.wf(),
    ensures
        acyclic(edge_pairs(dag@.edges)),
{
    let rank = choose|rank: spec_fn(usize) -> int| ranked(edge_pairs(dag.edges@), rank);
    lemma_ranked_is_acyclic(edge_pairs(dag.edges@), rank);
}

/// How many of the first `n` edges enter the port of the node.
pub open spec fn incoming(edges: Seq<Edge>, node: usize, port: PortHandle, n: nat) -> nat
    decreases n,
{
    if n == 0 {
        0
    } else {
        incoming(edges, node, port, (n - 1) as nat) + if edges[n - 1].to_node == node && edges[n
            - 1].to_port == port {
            1nat
        } else {
            0nat
        }
    }
}

/// What is wrong with an input port: no edge enters it, or more than one
/// does.
pub open spec fn port_fault(d: GraphValue, node: int, port: PortHandle) -> Option<GraphFailure> {
    let n = incoming(d.edges, node as usize, port, d.edges.len());
    if n == 0 {
        Some(GraphFailure::MissingInput { node: d.nodes[node].handle, port })
    } else if n == 1 {
        None
    } else {
        Some(GraphFailure::DuplicateInput { node: d.nodes[node].handle, port })
    }
}

/// The first fault among the first `k` input ports of a node.
pub open spec fn node_fault(d: GraphValue, node: int, k: nat) -> Option<GraphFailure>
    decreases k,
{
    if k == 0 {
        None
    } else {
        match node_fault(d, node, (k - 1) as nat) {
            Some(f) => Some(f),
            None => port_fault(d, node, d.nodes[node].input_ports[k - 1]),
        }
    }
}

/// The first fault among the first `n` nodes.
pub open spec fn graph_fault(d: GraphValue, n: nat) -> Option<GraphFailure>
    decreases n,
{
    if n == 0 {
        None
    } else {
        match graph_fault(d, (n - 1) as nat) {
            Some(f) => Some(f),
            None => node_fault(d, n - 1, d.nodes[n - 1].input_ports.len()),
        }
    }
}

proof fn lemma_node_fault_found(d: GraphValue, node: int, k: nat, m: nat)
    requires
        k <= m,
        node_fault(d, node, k) is Some,
    ensures
        node_fault(d, node, m) == node_fault(d, node, k),
    decreases m - k,
{
    if k < m {
        lemma_node_fault_found(d, node, k, (m - 1) as nat);
    }
}

proof fn lemma_graph_fault_found(d: GraphValue, n: nat, m: nat)
    requires
        n <= m,
        graph_fault(d, n) is Some,
    ensures
        graph_fault(d, m) == graph_fault(d, n),
    decreases m - n,
{
    if n < m {
        lemma_graph_fault_found(d, n, (m - 1) as nat);
    }
}

impl Graph {
    /// How many edges enter the port of the node.
    fn count_incoming(&self, node: usize, port: PortHandle) -> (res: usize)
        ensures
            res == incoming(self@.edges, node, port, self@.edges.len()),
    {
        let mut count: usize = 0;
        let mut i: usize = 0;
        while i < self.edges.len()
            invariant
                i <= self.edges.len(),
                count <= i,
                count == incoming(self@.edges, node, port, i as nat),
            decreases self.edges.len() - i,
        {
            if self.edges[i].to_node == node && self.edges[i].to_port == port {
                count += 1;
            }
            i += 1;
        }
        count
    }

    /// Checks that exactly one edge enters every input port that a node
    /// declares. The first port, in the order of the nodes and of their
    /// ports, that no edge or more than one edge enters is the failure.
    pub fn validate(&self) -> (res: Result<(), ExecutionError>)
        ensures
            match graph_fault(self@, self@.nodes.len()) {
                None => res is Ok,
                Some(f) => res is Err && graph_failure(res->Err_0) == Some(f),
            },
    {
        let mut n: usize = 0;
        while n < self.nodes.len()
            invariant
                n <= self.nodes.len(),
                graph_fault(self@, n as nat) is None,
            decreases self.nodes.len() - n,
        {
            let mut k: usize = 0;
            while k < self.nodes[n].input_ports.len()
                invariant
                    n < self.nodes.len(),
                    k <= self.nodes@[n as int].input_ports@.len(),
                    graph_fault(self@, n as nat) is None,
                    node_fault(self@, n as int, k as nat) is None,
                decreases self.nodes@[n as int].input_ports@.len() - k,
            {
                let port = self.nodes[n].input_ports[k];
                let count = self.count_incoming(n, port);
                if count != 1 {
                    proof {
                        lemma_node_fault_found(
                            self@,
                            n as int,
                            (k + 1) as nat,
                            self@.nodes[n as int].input_ports.len(),
                        );
                        lemma_graph_fault_found(self@, (n + 1) as nat, self@.nodes.len());
                    }
                    let node = self.nodes[n].handle.clone();
                    if count == 0 {
                        return Err(ExecutionError::MissingInput { node, port });
                    } else {
                        return Err(ExecutionError::DuplicateInput { node, port });
                    }
                }
                k += 1;
            }
            n += 1;
        }
        Ok(())
    }
}

} // verus!
