//! The graph store: nodes, ports and directed connections.
//!
//! Entities live in append-only arenas, one per kind, and refer to each other
//! by plain indices. Each input port has at most one incoming connection by
//! construction: the connection arena is indexed by input port. Every
//! connection runs from an output port of a node with a smaller index to an
//! input port of a node with a larger index, so the graph is acyclic and
//! walks toward sources terminate.

use vstd::prelude::*;
use crate::templates::{
    clone_template, create_std_nodes, WzrdFunction, WzrdGraphState, WzrdNode, WzrdNodeData,
    WzrdNodeDataType, WzrdNodeTemplates, WzrdNodeV, WzrdValueType, WzrdValueV,
};

verus! {

/// An input port of a node, with the constant value used when unconnected.
pub struct InputPort {
    pub node: usize,
    pub name: std::string::String,
    pub data_type: WzrdNodeDataType,
    pub value: WzrdValueType,
}

/// Mathematical model of an [`InputPort`].
#[verifier::ext_equal]
pub ghost struct InputPortV {
    pub node: int,
    pub name: Seq<char>,
    pub data_type: WzrdNodeDataType,
    pub value: WzrdValueV,
}

impl View for InputPort {
    type V = InputPortV;

    open spec fn view(&self) -> InputPortV {
        InputPortV {
            node: self.node as int,
            name: self.name@,
            data_type: self.data_type,
            value: self.value@,
        }
    }
}

/// An output port of a node.
pub struct OutputPort {
    pub node: usize,
    pub name: std::string::String,
    pub data_type: WzrdNodeDataType,
}

/// Mathematical model of an [`OutputPort`].
#[verifier::ext_equal]
pub ghost struct OutputPortV {
    pub node: int,
    pub name: Seq<char>,
    pub data_type: WzrdNodeDataType,
}

impl View for OutputPort {
    type V = OutputPortV;

    open spec fn view(&self) -> OutputPortV {
        OutputPortV { node: self.node as int, name: self.name@, data_type: self.data_type }
    }
}

/// A node of the graph, owning its template instance and its port indices.
pub struct GraphNode {
    pub label: std::string::String,
    pub user_data: WzrdNodeData,
    pub inputs: Vec<usize>,
    pub outputs: Vec<usize>,
}

/// Mathematical model of a [`GraphNode`].
#[verifier::ext_equal]
pub ghost struct GraphNodeV {
    pub label: Seq<char>,
    pub template: WzrdNodeV,
    pub inputs: Seq<int>,
    pub outputs: Seq<int>,
}

impl View for GraphNode {
    type V = GraphNodeV;

    open spec fn view(&self) -> GraphNodeV {
        GraphNodeV {
            label: self.label@,
            template: self.user_data@,
            inputs: self.inputs@.map_values(|i: usize| i as int),
            outputs: self.outputs@.map_values(|i: usize| i as int),
        }
    }
}

/// The persistent graph: arenas of nodes and ports, plus the connections.
///
/// `connections[i]` holds the output port feeding input port `i`, if any.
pub struct WzrdGraph {
    pub nodes: Vec<GraphNode>,
    pub inputs: Vec<InputPort>,
    pub outputs: Vec<OutputPort>,
    pub connections: Vec<Option<usize>>,
}

/// Mathematical model of a [`WzrdGraph`].
#[verifier::ext_equal]
pub ghost struct WzrdGraphV {
    pub nodes: Seq<GraphNodeV>,
    pub inputs: Seq<InputPortV>,
    pub outputs: Seq<OutputPortV>,
    pub connections: Seq<Option<int>>,
}

impl View for WzrdGraph {
    type V = WzrdGraphV;

    open spec fn view(&self) -> WzrdGraphV {
        WzrdGraphV {
            nodes: self.nodes@.map_values(|n: GraphNode| n@),
            inputs: self.inputs@.map_values(|p: InputPort| p@),
            outputs: self.outputs@.map_values(|p: OutputPort| p@),
            connections: self.connections@.map_values(
                |c: Option<usize>|
                    match c {
                        Option::Some(o) => Option::Some(o as int),
                        Option::None => Option::<int>::None,
                    },
            ),
        }
    }
}

impl WzrdGraphV {
    /// Well-formedness of the store: ports and nodes point at each other
    /// consistently, each input port has exactly one connection slot, and
    /// every connection runs from a lower-numbered node to a higher-numbered
    /// one, which makes the graph acyclic.
    pub open spec fn wf(self) -> bool {
        &&& self.connections.len() == self.inputs.len()
        &&& forall|i: int|
            0 <= i < self.inputs.len() ==> 0 <= (#[trigger] self.inputs[i]).node
                < self.nodes.len()
        &&& forall|o: int|
            0 <= o < self.outputs.len() ==> 0 <= (#[trigger] self.outputs[o]).node
                < self.nodes.len()
        &&& forall|n: int, k: int|
            0 <= n < self.nodes.len() && 0 <= k < self.nodes[n].inputs.len() ==> {
                &&& 0 <= #[trigger] self.nodes[n].inputs[k] < self.inputs.len()
                &&& self.inputs[self.nodes[n].inputs[k]].node == n
            }
        &&& forall|n: int, k: int|
            0 <= n < self.nodes.len() && 0 <= k < self.nodes[n].outputs.len() ==> {
                &&& 0 <= #[trigger] self.nodes[n].outputs[k] < self.outputs.len()
                &&& self.outputs[self.nodes[n].outputs[k]].node == n
            }
        &&& forall|i: int|
            0 <= i < self.inputs.len() ==> self.nodes[(#[trigger] self.inputs[i]).node].inputs.contains(i)
        &&& forall|o: int|
            0 <= o < self.outputs.len() ==> self.nodes[(#[trigger] self.outputs[o]).node].outputs.contains(o)
        &&& forall|i: int|
            0 <= i < self.connections.len() ==> ((#[trigger] self.connections[i]) matches Option::Some(o)
                ==> 0 <= o < self.outputs.len() && self.outputs[o].node < self.inputs[i].node)
    }

    /// Whether some connection leaves node `n`.
    pub open spec fn has_outgoing(self, n: int) -> bool {
        exists|i: int|
            0 <= i < self.connections.len() && ((#[trigger] self.connections[i]) matches Option::Some(o)
                && self.outputs[o].node == n)
    }

    /// The last node among `0 .. n` with no outgoing connection.
    pub open spec fn sink_upto(self, n: int) -> Option<int>
        decreases n,
    {
        if n <= 0 {
            Option::None
        } else if !self.has_outgoing(n - 1) {
            Option::Some(n - 1)
        } else {
            self.sink_upto(n - 1)
        }
    }

    /// The evaluation root: the last node, in arena order, with no outgoing
    /// connection.
    pub open spec fn sink(self) -> Option<int> {
        self.sink_upto(self.nodes.len() as int)
    }
}

/// The node a connection leaves, or a marker below every node index when the
/// input port is unconnected.
pub open spec fn conn_source(g: WzrdGraphV, i: int) -> int {
    match g.connections[i] {
        Option::Some(o) => g.outputs[o].node,
        Option::None => -1,
    }
}

/// Whether connection slot `i` carries a connection out of node `u`.
pub open spec fn feeds(g: WzrdGraphV, i: int, u: int) -> bool {
    &&& 0 <= i < g.connections.len()
    &&& g.connections[i] is Some
    &&& conn_source(g, i) == u
}

/// A forest-shaped graph: no node feeds more than one input port. Graphs
/// built by the importer have this shape.
pub open spec fn is_forest(g: WzrdGraphV) -> bool {
    forall|i1: int, i2: int|
        #![trigger conn_source(g, i1), conn_source(g, i2)]
        (0 <= i1 < g.connections.len() && 0 <= i2 < g.connections.len() && g.connections[i1]
            is Some && g.connections[i2] is Some && conn_source(g, i1) == conn_source(g, i2))
            ==> i1 == i2
}

/// No node lists the same input port twice. Graphs built by the importer
/// have this shape.
pub open spec fn distinct_inputs(g: WzrdGraphV) -> bool {
    forall|n2: int, k1: int, k2: int|
        (0 <= n2 < g.nodes.len() && 0 <= k1 < g.nodes[n2].inputs.len() && 0 <= k2
            < g.nodes[n2].inputs.len() && k1 != k2) ==> #[trigger] g.nodes[n2].inputs[k1]
            != #[trigger] g.nodes[n2].inputs[k2]
}

/// In a well-formed graph the last node has no outgoing connection: every
/// connection's source precedes its target.
pub proof fn lemma_last_node_no_outgoing(g: WzrdGraphV)
    requires
        g.wf(),
        g.nodes.len() > 0,
    ensures
        !g.has_outgoing(g.nodes.len() - 1),
{
    if g.has_outgoing(g.nodes.len() - 1) {
        let i = choose|i: int|
            0 <= i < g.connections.len() && ((#[trigger] g.connections[i]) matches Option::Some(o)
                && g.outputs[o].node == g.nodes.len() - 1);
        assert(g.connections[i] matches Option::Some(o) ==> g.outputs[o].node
            < g.inputs[i].node);
        assert(0 <= (g.inputs[i]).node < g.nodes.len());
        assert(false);
    }
}

/// The default constant of an input port built without one.
pub open spec fn port_default_value(iv: Option<WzrdValueV>) -> WzrdValueV {
    match iv {
        Option::Some(v) => v,
        Option::None => WzrdValueV::Int { value: 0 },
    }
}

/// The model of the node a template materializes to, given the arena sizes
/// at the moment of materialization.
pub open spec fn materialized_node(t: WzrdNodeV, in_base: int, out_base: int) -> GraphNodeV {
    GraphNodeV {
        label: t.label,
        template: t,
        inputs: Seq::new(t.inputs.len(), |k: int| in_base + k),
        outputs: Seq::new(t.outputs.len(), |k: int| out_base + k),
    }
}

impl WzrdGraph {
    /// An empty graph.
    pub fn new() -> (g: WzrdGraph)
        ensures
            g@.nodes.len() == 0,
            g@.inputs.len() == 0,
            g@.outputs.len() == 0,
            g@.connections.len() == 0,
            g@.wf(),
    {
        let g = WzrdGraph {
            nodes: Vec::new(),
            inputs: Vec::new(),
            outputs: Vec::new(),
            connections: Vec::new(),
        };
        proof {
            assert(g@.nodes =~= Seq::<GraphNodeV>::empty());
            assert(g@.inputs =~= Seq::<InputPortV>::empty());
            assert(g@.outputs =~= Seq::<OutputPortV>::empty());
            assert(g@.connections =~= Seq::<Option<int>>::empty());
        }
        g
    }

    /// Materializes a template into a fresh node: one input port per template
    /// input (carrying the template's default value, or integer zero), one
    /// output port per template output, and an unconnected slot per input.
    #[verifier::loop_isolation(false)]
    pub fn add_node(&mut self, template: &WzrdNode) -> (id: usize)
        requires
            old(self)@.wf(),
        ensures
            final(self)@.wf(),
            id == old(self)@.nodes.len(),
            final(self)@.nodes == old(self)@.nodes.push(
                materialized_node(template@, old(self)@.inputs.len() as int, old(self)@.outputs.len() as int),
            ),
            final(self)@.inputs.len() == old(self)@.inputs.len() + template@.inputs.len(),
            forall|j: int|
                0 <= j < old(self)@.inputs.len() ==> final(self)@.inputs[j] == old(self)@.inputs[j],
            forall|k: int|
                0 <= k < template@.inputs.len() ==> final(self)@.inputs[old(self)@.inputs.len() + k]
                    == (InputPortV {
                    node: old(self)@.nodes.len() as int,
                    name: template@.inputs[k].name,
                    data_type: template@.inputs[k].data_type,
                    value: port_default_value(template@.inputs[k].initial_value),
                }),
            final(self)@.outputs.len() == old(self)@.outputs.len() + template@.outputs.len(),
            forall|j: int|
                0 <= j < old(self)@.outputs.len() ==> final(self)@.outputs[j] == old(self)@.outputs[j],
            forall|k: int|
                0 <= k < template@.outputs.len() ==> final(self)@.outputs[old(self)@.outputs.len() + k] == (OutputPortV {
                    node: old(self)@.nodes.len() as int,
                    name: template@.outputs[k].name,
                    data_type: template@.outputs[k].data_type,
                }),
            final(self)@.connections.len() == old(self)@.connections.len()
                + template@.inputs.len(),
            forall|j: int|
                0 <= j < old(self)@.connections.len() ==> final(self)@.connections[j] == old(self)@.connections[j],
            forall|k: int|
                old(self)@.connections.len() <= k < final(self)@.connections.len() ==> final(self)@.connections[k] is None,
    {
        let ghost go = old(self)@;
        let id = self.nodes.len();
        let user_data = WzrdNodeData { template: clone_template(template) };
        let mut new_inputs: Vec<InputPort> = Vec::new();
        let mut new_conns: Vec<Option<usize>> = Vec::new();
        let mut k: usize = 0;
        while k < template.inputs.len()
            invariant
                k <= template.inputs@.len(),
                new_inputs@.len() == k,
                new_conns@.len() == k,
                forall|j: int|
                    0 <= j < k ==> (#[trigger] new_inputs@[j])@ == (InputPortV {
                        node: id as int,
                        name: template@.inputs[j].name,
                        data_type: template@.inputs[j].data_type,
                        value: port_default_value(template@.inputs[j].initial_value),
                    }),
                forall|j: int| 0 <= j < k ==> (#[trigger] new_conns@[j]) is None,
            decreases template.inputs@.len() - k,
        {
            let port = &template.inputs[k];
            let value = match &port.initial_value {
                Option::Some(v) => crate::templates::clone_value(v),
                Option::None => WzrdValueType::Integer { value: 0 },
            };
            new_inputs.push(
                InputPort { node: id, name: port.name.clone(), data_type: port.data_type, value },
            );
            new_conns.push(Option::None);
            proof {
                assert(template@.inputs[k as int] == template.inputs@[k as int]@);
            }
            k = k + 1;
        }
        let mut new_outputs: Vec<OutputPort> = Vec::new();
        let mut k2: usize = 0;
        while k2 < template.outputs.len()
            invariant
                k2 <= template.outputs@.len(),
                new_outputs@.len() == k2,
                forall|j: int|
                    0 <= j < k2 ==> (#[trigger] new_outputs@[j])@ == (OutputPortV {
                        node: id as int,
                        name: template@.outputs[j].name,
                        data_type: template@.outputs[j].data_type,
                    }),
            decreases template.outputs@.len() - k2,
        {
            let port = &template.outputs[k2];
            new_outputs.push(
                OutputPort { node: id, name: port.name.clone(), data_type: port.data_type },
            );
            proof {
                assert(template@.outputs[k2 as int] == template.outputs@[k2 as int]@);
            }
            k2 = k2 + 1;
        }
        let ghost niv = new_inputs@;
        let ghost ncv = new_conns@;
        let ghost nov = new_outputs@;
        self.inputs.append(&mut new_inputs);
        self.connections.append(&mut new_conns);
        self.outputs.append(&mut new_outputs);
        let icount = template.inputs.len();
        let in_base = self.inputs.len() - icount;
        let mut in_ids: Vec<usize> = Vec::new();
        let mut j: usize = 0;
        while j < icount
            invariant
                j <= icount,
                in_base + icount <= usize::MAX,
                in_ids@.len() == j,
                forall|t: int| 0 <= t < j ==> in_ids@[t] == in_base + t,
            decreases icount - j,
        {
            in_ids.push(in_base + j);
            j = j + 1;
        }
        let ocount = template.outputs.len();
        let out_base = self.outputs.len() - ocount;
        let mut out_ids: Vec<usize> = Vec::new();
        let mut j2: usize = 0;
        while j2 < ocount
            invariant
                j2 <= ocount,
                out_base + ocount <= usize::MAX,
                out_ids@.len() == j2,
                forall|t: int| 0 <= t < j2 ==> out_ids@[t] == out_base + t,
            decreases ocount - j2,
        {
            out_ids.push(out_base + j2);
            j2 = j2 + 1;
        }
        let node = GraphNode {
            label: template.label.clone(),
            user_data,
            inputs: in_ids,
            outputs: out_ids,
        };
        proof {
            assert(node@ =~= materialized_node(
                template@,
                go.inputs.len() as int,
                go.outputs.len() as int,
            ));
        }
        self.nodes.push(node);
        proof {
            assert(self@.nodes =~= go.nodes.push(
                materialized_node(template@, go.inputs.len() as int, go.outputs.len() as int),
            ));
            assert(self@.inputs.len() == go.inputs.len() + template@.inputs.len());
            assert(forall|t: int|
                0 <= t < go.inputs.len() ==> self@.inputs[t] == go.inputs[t]);
            assert(forall|t: int|
                0 <= t < template@.inputs.len() ==> self@.inputs[go.inputs.len() + t] == niv[t]@);
            assert(forall|t: int|
                0 <= t < template@.inputs.len() ==> self@.inputs[go.inputs.len() + t]
                    == (InputPortV {
                    node: go.nodes.len() as int,
                    name: template@.inputs[t].name,
                    data_type: template@.inputs[t].data_type,
                    value: port_default_value(template@.inputs[t].initial_value),
                }));
            assert(self@.outputs.len() == go.outputs.len() + template@.outputs.len());
            assert(forall|t: int|
                0 <= t < go.outputs.len() ==> self@.outputs[t] == go.outputs[t]);
            assert(forall|t: int|
                0 <= t < template@.outputs.len() ==> self@.outputs[go.outputs.len() + t]
                    == (OutputPortV {
                    node: go.nodes.len() as int,
                    name: template@.outputs[t].name,
                    data_type: template@.outputs[t].data_type,
                }));
            assert(self@.connections.len() == go.connections.len() + template@.inputs.len());
            assert(forall|t: int|
                0 <= t < go.connections.len() ==> self@.connections[t] == go.connections[t]);
            assert(forall|t: int|
                go.connections.len() <= t < self@.connections.len() ==> self@.connections[t] is None);
            assert(self@.wf()) by {
                let g = self@;
                assert forall|i: int|
                    0 <= i < g.inputs.len() implies 0 <= (#[trigger] g.inputs[i]).node
                    < g.nodes.len() by {
                    if i < go.inputs.len() {
                        assert(g.inputs[i] == go.inputs[i]);
                    } else {
                        assert(g.inputs[i] == niv[i - go.inputs.len()]@);
                    }
                }
                assert forall|o: int|
                    0 <= o < g.outputs.len() implies 0 <= (#[trigger] g.outputs[o]).node
                    < g.nodes.len() by {
                    if o < go.outputs.len() {
                        assert(g.outputs[o] == go.outputs[o]);
                    } else {
                        assert(g.outputs[o] == nov[o - go.outputs.len()]@);
                    }
                }
                assert forall|n: int, kk: int|
                    0 <= n < g.nodes.len() && 0 <= kk < g.nodes[n].inputs.len() implies {
                    &&& 0 <= #[trigger] g.nodes[n].inputs[kk] < g.inputs.len()
                    &&& g.inputs[g.nodes[n].inputs[kk]].node == n
                } by {
                    if n < go.nodes.len() {
                        assert(g.nodes[n] == go.nodes[n]);
                        assert(go.nodes[n].inputs[kk] < go.inputs.len());
                        assert(g.inputs[go.nodes[n].inputs[kk]] == go.inputs[go.nodes[n].inputs[kk]]);
                    }
                }
                assert forall|n: int, kk: int|
                    0 <= n < g.nodes.len() && 0 <= kk < g.nodes[n].outputs.len() implies {
                    &&& 0 <= #[trigger] g.nodes[n].outputs[kk] < g.outputs.len()
                    &&& g.outputs[g.nodes[n].outputs[kk]].node == n
                } by {
                    if n < go.nodes.len() {
                        assert(g.nodes[n] == go.nodes[n]);
                        assert(go.nodes[n].outputs[kk] < go.outputs.len());
                        assert(g.outputs[go.nodes[n].outputs[kk]] == go.outputs[go.nodes[n].outputs[kk]]);
                    }
                }
                assert forall|i: int|
                    0 <= i < g.inputs.len() implies g.nodes[(#[trigger] g.inputs[i]).node].inputs.contains(
                    i,
                ) by {
                    if i < go.inputs.len() {
                        assert(go.nodes[go.inputs[i].node].inputs.contains(i));
                        let w = choose|w: int|
                            0 <= w < go.nodes[go.inputs[i].node].inputs.len()
                                && go.nodes[go.inputs[i].node].inputs[w] == i;
                        assert(g.nodes[g.inputs[i].node].inputs[w] == i);
                    } else {
                        let kk = i - go.inputs.len();
                        assert(g.nodes[id as int].inputs[kk] == i);
                    }
                }
                assert forall|o: int|
                    0 <= o < g.outputs.len() implies g.nodes[(#[trigger] g.outputs[o]).node].outputs.contains(
                    o,
                ) by {
                    if o < go.outputs.len() {
                        assert(go.nodes[go.outputs[o].node].outputs.contains(o));
                        let w = choose|w: int|
                            0 <= w < go.nodes[go.outputs[o].node].outputs.len()
                                && go.nodes[go.outputs[o].node].outputs[w] == o;
                        assert(g.nodes[g.outputs[o].node].outputs[w] == o);
                    } else {
                        let kk = o - go.outputs.len();
                        assert(g.nodes[id as int].outputs[kk] == o);
                    }
                }
                assert forall|i: int|
                    0 <= i < g.connections.len() implies ((#[trigger] g.connections[i]) matches Option::Some(o)
                        ==> 0 <= o < g.outputs.len() && g.outputs[o].node < g.inputs[i].node) by {
                    if i < go.connections.len() {
                        assert(g.connections[i] == go.connections[i]);
                        match go.connections[i] {
                            Option::Some(o) => {
                                assert(g.outputs[o] == go.outputs[o]);
                                assert(g.inputs[i] == go.inputs[i]);
                            },
                            Option::None => {},
                        }
                    }
                }
            }
        }
        id
    }

    /// Wires an output port to an input port, replacing any previous feed of
    /// that input. The source node must precede the target node, which keeps
    /// the graph acyclic.
    pub fn add_connection(&mut self, output_id: usize, input_id: usize)
        requires
            old(self)@.wf(),
            output_id < old(self)@.outputs.len(),
            input_id < old(self)@.inputs.len(),
            old(self)@.outputs[output_id as int].node < old(self)@.inputs[input_id as int].node,
        ensures
            final(self)@.wf(),
            final(self)@.nodes == old(self)@.nodes,
            final(self)@.inputs == old(self)@.inputs,
            final(self)@.outputs == old(self)@.outputs,
            final(self)@.connections == old(self)@.connections.update(
                input_id as int,
                Option::Some(output_id as int),
            ),
    {
        self.connections[input_id] = Option::Some(output_id);
        proof {
            assert(self@.connections =~= old(self)@.connections.update(
                input_id as int,
                Option::Some(output_id as int),
            ));
            assert(self@.wf()) by {
                let g = self@;
                let go = old(self)@;
                assert forall|i: int|
                    0 <= i < g.connections.len() implies ((#[trigger] g.connections[i]) matches Option::Some(o)
                        ==> 0 <= o < g.outputs.len() && g.outputs[o].node < g.inputs[i].node) by {
                    if i != input_id as int {
                        assert(g.connections[i] == go.connections[i]);
                    }
                }
            }
        }
    }

    /// Whether some connection leaves node `n`.
    pub fn node_has_outgoing(&self, n: usize) -> (r: bool)
        requires
            self@.wf(),
        ensures
            r == self@.has_outgoing(n as int),
    {
        let mut i: usize = 0;
        while i < self.connections.len()
            invariant
                self@.wf(),
                i <= self@.connections.len(),
                self@.connections.len() == self.connections@.len(),
                forall|j: int|
                    0 <= j < i ==> !((#[trigger] self@.connections[j]) matches Option::Some(o)
                        && self@.outputs[o].node == n),
            decreases self.connections@.len() - i,
        {
            match self.connections[i] {
                Option::Some(o) => {
                    if self.outputs[o].node == n {
                        proof {
                            assert(self@.connections[i as int] matches Option::Some(oo)
                                && self@.outputs[oo].node == n);
                        }
                        return true;
                    }
                },
                Option::None => {},
            }
            i = i + 1;
        }
        proof {
            assert(!self@.has_outgoing(n as int));
        }
        false
    }
}

/// A node's display position.
#[derive(Clone, Copy, Debug, PartialEq, Eq, Structural)]
pub struct NodePos {
    pub x: i64,
    pub y: i64,
}

/// A node's rendered bounding-box size, as reported by the host.
#[derive(Clone, Copy, Debug, PartialEq, Eq, Structural)]
pub struct NodeRect {
    pub width: i64,
    pub height: i64,
}

/// The whole editable document: the graph store plus display state, the
/// template list offered to the node picker, and the stack of function
/// signatures captured during import.
pub struct WzrdNodeGraph {
    pub graph: WzrdGraph,
    pub node_order: Vec<usize>,
    pub node_positions: Vec<Option<NodePos>>,
    pub node_rects: Vec<NodeRect>,
    pub node_templates: WzrdNodeTemplates,
    pub user_state: WzrdGraphState,
    pub function_stack: Vec<WzrdFunction>,
}

impl WzrdNodeGraph {
    /// The graph store is well formed and the display arenas cover its nodes.
    pub open spec fn wf(self) -> bool {
        &&& self.graph@.wf()
        &&& self.node_positions@.len() == self.graph@.nodes.len()
        &&& self.node_rects@.len() == self.graph@.nodes.len()
    }

    /// An empty document offering the standard templates.
    pub fn new() -> (r: WzrdNodeGraph)
        ensures
            r.wf(),
            r.graph@.nodes.len() == 0,
            r.node_order@.len() == 0,
            r.function_stack@.len() == 0,
            r.node_templates@ =~= seq![
                crate::templates::catalog_template(crate::templates::WzrdNodes::Add),
                crate::templates::catalog_template(crate::templates::WzrdNodes::Multiply),
                crate::templates::catalog_template(crate::templates::WzrdNodes::If),
            ],
            is_forest(r.graph@),
            distinct_inputs(r.graph@),
    {
        let standard_nodes: Vec<WzrdNode> = create_std_nodes();
        WzrdNodeGraph {
            graph: WzrdGraph::new(),
            node_order: Vec::new(),
            node_positions: Vec::new(),
            node_rects: Vec::new(),
            node_templates: WzrdNodeTemplates(standard_nodes),
            user_state: WzrdGraphState {  },
            function_stack: Vec::new(),
        }
    }

    /// Locates the evaluation root: the last node, in arena order, with no
    /// outgoing connection.
    #[verifier::loop_isolation(false)]
    pub fn find_last_node(&self) -> (r: Option<usize>)
        requires
            self.graph@.wf(),
        ensures
            match r {
                Option::Some(n) => self.graph@.sink() == Option::Some(n as int),
                Option::None => self.graph@.sink() is None,
            },
    {
        let mut last: Option<usize> = Option::None;
        let mut n: usize = 0;
        while n < self.graph.nodes.len()
            invariant
                n <= self.graph@.nodes.len(),
                match last {
                    Option::Some(u) => self.graph@.sink_upto(n as int) == Option::Some(u as int),
                    Option::None => self.graph@.sink_upto(n as int) is None,
                },
            decreases self.graph@.nodes.len() - n,
        {
            if !self.graph.node_has_outgoing(n) {
                last = Option::Some(n);
            }
            n = n + 1;
        }
        last
    }
}

} // verus!
