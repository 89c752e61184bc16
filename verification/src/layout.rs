//! The auto-layout engine: recomputes node positions for an imported graph.
//!
//! Starting from the sink at a fixed origin, a backward breadth-first
//! traversal through the input connections places each node's connected
//! ancestors in a column to its left: all at the same horizontal position
//! (far enough left for the widest of them plus a fixed gap), stacked
//! vertically around the node's midpoint with a fixed gap between
//! consecutive boxes. The traversal queue is a FIFO queue from an outside
//! collection crate, used through trusted wrappers.

use vstd::prelude::*;
use queues::IsQueue;
use crate::store::{
    conn_source, distinct_inputs, feeds, is_forest, NodePos, NodeRect, WzrdGraphV, WzrdNodeGraph,
};

verus! {

/// The horizontal gap kept between a node and its ancestor column.
pub const X_OFFSET: i64 = 50;

/// The vertical gap kept between consecutive stacked ancestors.
pub const Y_OFFSET: i64 = 50;

#[verifier::external_type_specification]
#[verifier::external_body]
#[verifier::reject_recursive_types(T)]
pub struct ExQueue<T: Clone>(queues::Queue<T>);

/// The elements a queue holds, oldest first.
pub uninterp spec fn queue_elems(q: queues::Queue<usize>) -> Seq<usize>;

/// Relies on queues::Queue::new: a fresh queue is empty.
#[verifier::external_body]
fn queue_new() -> (q: queues::Queue<usize>)
    ensures
        queue_elems(q) == Seq::<usize>::empty(),
{
    queues::Queue::new()
}

/// Relies on queues::Queue::add: appends the value at the back; the result
/// is always `Ok(None)` for this unbounded queue.
#[verifier::external_body]
fn queue_add(q: &mut queues::Queue<usize>, v: usize)
    ensures
        queue_elems(*final(q)) == queue_elems(*old(q)).push(v),
{
    let _ = q.add(v);
}

/// Relies on queues::Queue::remove: pops and returns the oldest element, or
/// errs on an empty queue.
#[verifier::external_body]
fn queue_remove(q: &mut queues::Queue<usize>) -> (r: Option<usize>)
    ensures
        queue_elems(*old(q)).len() == 0 ==> r is None && queue_elems(*final(q)) == queue_elems(
            *old(q),
        ),
        queue_elems(*old(q)).len() > 0 ==> r == Option::Some(queue_elems(*old(q))[0])
            && queue_elems(*final(q)) == queue_elems(*old(q)).drop_first(),
{
    match q.remove() {
        Ok(v) => Option::Some(v),
        Err(_) => Option::None,
    }
}

/// Relies on queues::Queue::size: the number of elements held.
#[verifier::external_body]
fn queue_size(q: &queues::Queue<usize>) -> (n: usize)
    ensures
        n == queue_elems(*q).len(),
{
    q.size()
}

/// Whether `u` occurs in the queue contents.
pub open spec fn in_qs(qs: Seq<usize>, u: int) -> bool {
    exists|t: int| 0 <= t < qs.len() && (#[trigger] qs[t]) as int == u
}

/// How many of node `v`'s first `k` input ports are connected.
pub open spec fn anc_count(g: WzrdGraphV, v: int, k: int) -> int
    decreases k,
{
    if k <= 0 {
        0
    } else {
        anc_count(g, v, k - 1) + (if g.connections[g.nodes[v].inputs[k - 1]] is Some {
            1int
        } else {
            0int
        })
    }
}

/// The widest rendered box among node `v`'s connected ancestors at input
/// positions below `k`.
pub open spec fn anc_max_width(g: WzrdGraphV, rects: Seq<NodeRect>, v: int, k: int) -> int
    decreases k,
{
    if k <= 0 {
        0
    } else {
        let prev = anc_max_width(g, rects, v, k - 1);
        if g.connections[g.nodes[v].inputs[k - 1]] is Some {
            let w = rects[conn_source(g, g.nodes[v].inputs[k - 1])].width as int;
            if w > prev {
                w
            } else {
                prev
            }
        } else {
            prev
        }
    }
}

/// The combined height of node `v`'s connected ancestors at input positions
/// below `k`: their heights summed, with the vertical gap between each pair
/// of consecutive boxes.
pub open spec fn anc_sum_height(g: WzrdGraphV, rects: Seq<NodeRect>, v: int, k: int) -> int
    decreases k,
{
    if k <= 0 {
        0
    } else {
        let prev = anc_sum_height(g, rects, v, k - 1);
        if g.connections[g.nodes[v].inputs[k - 1]] is Some {
            prev + (if anc_count(g, v, k - 1) > 0 {
                Y_OFFSET as int
            } else {
                0int
            }) + rects[conn_source(g, g.nodes[v].inputs[k - 1])].height as int
        } else {
            prev
        }
    }
}

/// How far below the top of the stack the ancestor at input position `k`
/// begins: the heights of the connected ancestors before it, each followed
/// by the vertical gap.
pub open spec fn anc_stack_y(g: WzrdGraphV, rects: Seq<NodeRect>, v: int, k: int) -> int
    decreases k,
{
    if k <= 0 {
        0
    } else {
        let prev = anc_stack_y(g, rects, v, k - 1);
        if g.connections[g.nodes[v].inputs[k - 1]] is Some {
            prev + rects[conn_source(g, g.nodes[v].inputs[k - 1])].height as int + Y_OFFSET as int
        } else {
            prev
        }
    }
}

/// Where the ancestor feeding node `v`'s input `k` stands: in the column
/// left of `v` by the gap and the widest ancestor, at the stack position of
/// input `k` below the stack's top — the top being `v`'s vertical midpoint
/// minus half the combined ancestor height.
pub open spec fn ancestor_placed(
    g: WzrdGraphV,
    rects: Seq<NodeRect>,
    pos: Seq<Option<NodePos>>,
    v: int,
    k: int,
) -> bool {
    pos[v] matches Option::Some(pv) && pos[conn_source(g, g.nodes[v].inputs[k])] matches
        Option::Some(pu) && pu.x == pv.x - X_OFFSET - anc_max_width(
        g,
        rects,
        v,
        g.nodes[v].inputs.len() as int,
    ) && pu.y == pv.y + (rects[v].height as int) / 2 - anc_sum_height(
        g,
        rects,
        v,
        g.nodes[v].inputs.len() as int,
    ) / 2 + anc_stack_y(g, rects, v, k)
}

/// All of node `v`'s connected ancestors stand in its column.
pub open spec fn ancestors_in_column(
    g: WzrdGraphV,
    rects: Seq<NodeRect>,
    pos: Seq<Option<NodePos>>,
    v: int,
) -> bool {
    forall|k: int|
        0 <= k < g.nodes[v].inputs.len() && g.connections[#[trigger] g.nodes[v].inputs[k]] is Some
            ==> ancestor_placed(g, rects, pos, v, k)
}

/// Whether `u` reaches the sink `s` in at most `fuel` steps, each step from
/// a node to a node it feeds.
pub open spec fn reaches_sink_in(g: WzrdGraphV, u: int, s: int, fuel: nat) -> bool
    decreases fuel,
{
    u == s || (fuel > 0 && exists|i: int|
        #[trigger] feeds(g, i, u) && reaches_sink_in(g, g.inputs[i].node, s, (fuel - 1) as nat))
}

/// Whether `u` is backward-reachable from the sink `s`: it is the sink, or
/// it feeds, through a chain of connections, a node that is.
pub open spec fn reaches_sink(g: WzrdGraphV, u: int, s: int) -> bool {
    reaches_sink_in(g, u, s, g.nodes.len())
}

/// Reachability within some step budget holds within any larger one.
pub proof fn lemma_reaches_sink_mono(g: WzrdGraphV, u: int, s: int, f1: nat, f2: nat)
    requires
        reaches_sink_in(g, u, s, f1),
        f1 <= f2,
    ensures
        reaches_sink_in(g, u, s, f2),
    decreases f1,
{
    if u != s {
        let i = choose|i: int|
            #[trigger] feeds(g, i, u) && reaches_sink_in(g, g.inputs[i].node, s, (f1 - 1) as nat);
        lemma_reaches_sink_mono(g, g.inputs[i].node, s, (f1 - 1) as nat, (f2 - 1) as nat);
        assert(feeds(g, i, u) && reaches_sink_in(g, g.inputs[i].node, s, (f2 - 1) as nat));
    }
}

/// Distinct queued nodes, disjoint from the done set and all below `n`,
/// leave the total membership no larger than `n`.
proof fn lemma_placed_count(done: Set<int>, qs: Seq<usize>, n: int)
    requires
        n >= 0,
        done.finite(),
        qs.no_duplicates(),
        forall|u: int| done.contains(u) ==> 0 <= u < n,
        forall|t: int| 0 <= t < qs.len() ==> ((#[trigger] qs[t]) as int) < n,
        forall|t: int| 0 <= t < qs.len() ==> !done.contains((#[trigger] qs[t]) as int),
    ensures
        done.len() + qs.len() <= n,
    decreases qs.len(),
{
    if qs.len() == 0 {
        vstd::set_lib::lemma_int_range(0, n);
        assert(done.subset_of(vstd::set_lib::set_int_range(0, n)));
        vstd::set_lib::lemma_len_subset(done, vstd::set_lib::set_int_range(0, n));
    } else {
        let u = qs[0] as int;
        let done2 = done.insert(u);
        assert(done2.len() == done.len() + 1);
        let qs2 = qs.drop_first();
        assert(qs2.no_duplicates());
        assert forall|t: int| 0 <= t < qs2.len() implies !done2.contains(
            (#[trigger] qs2[t]) as int,
        ) by {
            assert(qs2[t] == qs[t + 1]);
        }
        assert forall|t: int| 0 <= t < qs2.len() implies ((#[trigger] qs2[t]) as int) < n by {
            assert(qs2[t] == qs[t + 1]);
        }
        lemma_placed_count(done2, qs2, n);
    }
}

/// The sink index lies within the node arena.
proof fn lemma_sink_in_range(g: WzrdGraphV, n: int)
    requires
        g.sink_upto(n) is Some,
    ensures
        0 <= g.sink_upto(n).unwrap() < n,
    decreases n,
{
    if n > 0 && g.has_outgoing(n - 1) {
        lemma_sink_in_range(g, n - 1);
    }
}

/// The sink has no outgoing connection.
proof fn lemma_sink_no_outgoing(g: WzrdGraphV, n: int)
    requires
        g.sink_upto(n) is Some,
    ensures
        !g.has_outgoing(g.sink_upto(n).unwrap()),
    decreases n,
{
    if n > 0 && g.has_outgoing(n - 1) {
        lemma_sink_no_outgoing(g, n - 1);
    }
}

/// After one node's ancestors are placed in its column, every connection
/// into it meets the column guarantee, and every placed node can again name
/// a laid-out consumer.
proof fn lemma_restore_guarantees(
    g: WzrdGraphV,
    n: int,
    s: int,
    v: int,
    done: Set<int>,
    pos: Seq<Option<NodePos>>,
    rects: Seq<NodeRect>,
    qs: Seq<usize>,
    vpos: NodePos,
    first_x: int,
    max_w: int,
)
    requires
        g.wf(),
        n == g.nodes.len(),
        pos.len() == n,
        rects.len() == n,
        0 <= v < n,
        pos[v] == Option::Some(vpos),
        first_x == vpos.x - X_OFFSET - max_w,
        forall|k3: int|
            0 <= k3 < g.nodes[v].inputs.len() && g.connections[g.nodes[v].inputs[k3]] is Some ==> (
            pos[conn_source(g, #[trigger] g.nodes[v].inputs[k3])] matches Option::Some(pu) && pu.x
                == first_x),
        forall|k3: int|
            0 <= k3 < g.nodes[v].inputs.len() && g.connections[g.nodes[v].inputs[k3]] is Some
                ==> max_w >= rects[conn_source(g, #[trigger] g.nodes[v].inputs[k3])].width,
        forall|i: int|
            0 <= i < g.connections.len() && (#[trigger] g.connections[i]) is Some && done.contains(
                g.inputs[i].node,
            ) ==> (pos[conn_source(g, i)] matches Option::Some(pu) && pos[g.inputs[i].node]
                matches Option::Some(pv) && pu.x + rects[conn_source(g, i)].width + X_OFFSET
                <= pv.x),
        forall|u: int|
            #![trigger done.insert(v).contains(u)]
            #![trigger in_qs(qs, u)]
            0 <= u < n && (done.insert(v).contains(u) || in_qs(qs, u)) ==> (u == s || exists|i: int|
                #[trigger] feeds(g, i, u) && (done.contains(g.inputs[i].node) || g.inputs[i].node
                    == v)),
    ensures
        forall|i: int|
            0 <= i < g.connections.len() && (#[trigger] g.connections[i]) is Some && done.insert(
                v,
            ).contains(g.inputs[i].node) ==> (pos[conn_source(g, i)] matches Option::Some(pu)
                && pos[g.inputs[i].node] matches Option::Some(pv) && pu.x + rects[conn_source(
                g,
                i,
            )].width + X_OFFSET <= pv.x),
        forall|u: int|
            #![trigger done.insert(v).contains(u)]
            #![trigger in_qs(qs, u)]
            0 <= u < n && (done.insert(v).contains(u) || in_qs(qs, u)) ==> (u == s || exists|i: int|
                #[trigger] feeds(g, i, u) && done.insert(v).contains(g.inputs[i].node)),
{
    assert forall|i: int|
        0 <= i < g.connections.len() && (#[trigger] g.connections[i]) is Some && done.insert(
            v,
        ).contains(g.inputs[i].node) implies (pos[conn_source(g, i)] matches Option::Some(pu)
        && pos[g.inputs[i].node] matches Option::Some(pv) && pu.x + rects[conn_source(g, i)].width
        + X_OFFSET <= pv.x) by {
        if g.inputs[i].node == v {
            assert(g.nodes[v].inputs.contains(i));
            let k3 = choose|k3: int|
                0 <= k3 < g.nodes[v].inputs.len() && g.nodes[v].inputs[k3] == i;
            assert(g.connections[g.nodes[v].inputs[k3]] is Some);
            assert(pos[conn_source(g, i)] matches Option::Some(pu) && pu.x == first_x);
            assert(0 <= conn_source(g, i) < n);
            assert(max_w >= rects[conn_source(g, i)].width);
        }
    }
    assert forall|u: int|
        0 <= u < n && (done.insert(v).contains(u) || in_qs(qs, u)) implies (u == s || exists|i: int|
            #[trigger] feeds(g, i, u) && done.insert(v).contains(g.inputs[i].node)) by {
        if u != s {
            assert(done.insert(v).contains(u) || in_qs(qs, u));
            assert(exists|i: int|
                #[trigger] feeds(g, i, u) && (done.contains(g.inputs[i].node) || g.inputs[i].node
                    == v));
            let i = choose|i: int|
                #[trigger] feeds(g, i, u) && (done.contains(g.inputs[i].node) || g.inputs[i].node
                    == v);
            assert(feeds(g, i, u));
            assert(0 <= i < g.connections.len());
            if done.contains(g.inputs[i].node) {
                assert(done.insert(v).contains(g.inputs[i].node));
            } else {
                assert(g.inputs[i].node == v);
                assert(done.insert(v).contains(v));
            }
            assert(feeds(g, i, u) && done.insert(v).contains(g.inputs[i].node));
        }
    }
}

/// Once the queue is drained, every placed node is backward-reachable from
/// the sink and keeps its ancestors in its column.
proof fn lemma_drained_queue_guarantees(
    g: WzrdGraphV,
    n: int,
    s: int,
    done: Set<int>,
    qs: Seq<usize>,
    pos: Seq<Option<NodePos>>,
    rects: Seq<NodeRect>,
)
    requires
        g.wf(),
        n == g.nodes.len(),
        pos.len() == n,
        g.sink() == Option::Some(s),
        qs.len() == 0,
        forall|u: int|
            0 <= u < n ==> ((#[trigger] pos[u]) is Some <==> (done.contains(u) || in_qs(qs, u))),
        forall|u: int|
            #![trigger done.contains(u)]
            #![trigger in_qs(qs, u)]
            0 <= u < n && (done.contains(u) || in_qs(qs, u)) ==> reaches_sink_in(
                g,
                u,
                s,
                (n - u) as nat,
            ),
        forall|v2: int|
            0 <= v2 < n && done.contains(v2) ==> ancestors_in_column(g, rects, pos, v2),
        forall|i: int|
            0 <= i < g.connections.len() && (#[trigger] g.connections[i]) is Some && done.contains(
                g.inputs[i].node,
            ) ==> (pos[conn_source(g, i)] matches Option::Some(pu) && pos[g.inputs[i].node]
                matches Option::Some(pv) && pu.x + rects[conn_source(g, i)].width + X_OFFSET
                <= pv.x),
    ensures
        forall|u: int|
            0 <= u < n && (#[trigger] pos[u]) is Some ==> (g.sink() matches Option::Some(s2)
                && reaches_sink(g, u, s2)),
        forall|v2: int|
            0 <= v2 < n && (#[trigger] pos[v2]) is Some ==> ancestors_in_column(g, rects, pos, v2),
        forall|i: int|
            0 <= i < g.connections.len() && (#[trigger] g.connections[i]) is Some
                && pos[g.inputs[i].node] is Some ==> (pos[conn_source(g, i)] matches Option::Some(
                pu,
            ) && pos[g.inputs[i].node] matches Option::Some(pv) && pu.x + rects[conn_source(
                g,
                i,
            )].width + X_OFFSET <= pv.x),
{
    assert forall|i: int|
        0 <= i < g.connections.len() && (#[trigger] g.connections[i]) is Some && pos[g.inputs[i].node] is Some implies (
    pos[conn_source(g, i)] matches Option::Some(pu) && pos[g.inputs[i].node] matches Option::Some(
        pv,
    ) && pu.x + rects[conn_source(g, i)].width + X_OFFSET <= pv.x) by {
        let w = g.inputs[i].node;
        assert(0 <= w < n);
        assert(done.contains(w) || in_qs(qs, w));
        assert(done.contains(w));
    }
    assert forall|u: int|
        0 <= u < n && (#[trigger] pos[u]) is Some implies (g.sink() matches Option::Some(s2)
        && reaches_sink(g, u, s2)) by {
        assert(done.contains(u) || in_qs(qs, u));
        assert(reaches_sink_in(g, u, s, (n - u) as nat));
        lemma_reaches_sink_mono(g, u, s, (n - u) as nat, g.nodes.len() as nat);
    }
    assert forall|v2: int|
        0 <= v2 < n && (#[trigger] pos[v2]) is Some implies ancestors_in_column(
        g,
        rects,
        pos,
        v2,
    ) by {
        assert(done.contains(v2) || in_qs(qs, v2));
        assert(done.contains(v2));
    }
}

/// A node reachable from the sink is placed, in the same spot, by any two
/// placements that satisfy the layout guarantees.
proof fn lemma_reachable_pinned(
    g: WzrdGraphV,
    rects: Seq<NodeRect>,
    s: int,
    pos1: Seq<Option<NodePos>>,
    pos2: Seq<Option<NodePos>>,
    u: int,
    fuel: nat,
)
    requires
        g.wf(),
        pos1.len() == g.nodes.len(),
        pos2.len() == g.nodes.len(),
        0 <= s < g.nodes.len(),
        pos1[s] == Option::Some(NodePos { x: 0, y: 0 }),
        pos2[s] == Option::Some(NodePos { x: 0, y: 0 }),
        forall|v2: int|
            0 <= v2 < g.nodes.len() && (#[trigger] pos1[v2]) is Some ==> ancestors_in_column(
                g,
                rects,
                pos1,
                v2,
            ),
        forall|v2: int|
            0 <= v2 < g.nodes.len() && (#[trigger] pos2[v2]) is Some ==> ancestors_in_column(
                g,
                rects,
                pos2,
                v2,
            ),
        0 <= u < g.nodes.len(),
        reaches_sink_in(g, u, s, fuel),
    ensures
        pos1[u] is Some,
        pos2[u] is Some,
        pos1[u] == pos2[u],
    decreases fuel,
{
    if u == s {
    } else {
        let i = choose|i: int|
            #[trigger] feeds(g, i, u) && reaches_sink_in(g, g.inputs[i].node, s, (fuel - 1) as nat);
        let w = g.inputs[i].node;
        assert(0 <= w < g.nodes.len());
        lemma_reachable_pinned(g, rects, s, pos1, pos2, w, (fuel - 1) as nat);
        assert(g.nodes[w].inputs.contains(i));
        let k = choose|k: int| 0 <= k < g.nodes[w].inputs.len() && g.nodes[w].inputs[k] == i;
        assert(g.connections[g.nodes[w].inputs[k]] is Some);
        assert(conn_source(g, g.nodes[w].inputs[k]) == u);
        assert(ancestors_in_column(g, rects, pos1, w));
        assert(ancestors_in_column(g, rects, pos2, w));
        assert(ancestor_placed(g, rects, pos1, w, k));
        assert(ancestor_placed(g, rects, pos2, w, k));
        match (pos1[u], pos2[u]) {
            (Option::Some(p1), Option::Some(p2)) => {
                assert(p1.x == p2.x && p1.y == p2.y);
                assert(p1 == (NodePos { x: p1.x, y: p1.y }));
                assert(p2 == (NodePos { x: p2.x, y: p2.y }));
            },
            _ => {
                assert(false);
            },
        }
    }
}

/// The layout guarantees pin the placement: any two position assignments
/// that satisfy them — the sink at the origin, placement confined to nodes
/// backward-reachable from the sink, and every placed node's connected
/// ancestors standing in its column — agree on every node. Running the
/// layout again while the rendered bounding boxes stay stable therefore
/// reassigns exactly the positions of the previous run: the pass is
/// idempotent, and its outcome is a function of the graph and the boxes
/// alone.
pub proof fn lemma_layout_determined(
    g: WzrdGraphV,
    rects: Seq<NodeRect>,
    s: int,
    pos1: Seq<Option<NodePos>>,
    pos2: Seq<Option<NodePos>>,
)
    requires
        g.wf(),
        g.sink() == Option::Some(s),
        0 <= s < g.nodes.len(),
        pos1.len() == g.nodes.len(),
        pos2.len() == g.nodes.len(),
        pos1[s] == Option::Some(NodePos { x: 0, y: 0 }),
        pos2[s] == Option::Some(NodePos { x: 0, y: 0 }),
        forall|u: int|
            0 <= u < g.nodes.len() && (#[trigger] pos1[u]) is Some ==> (g.sink() matches
            Option::Some(s2) && reaches_sink(g, u, s2)),
        forall|u: int|
            0 <= u < g.nodes.len() && (#[trigger] pos2[u]) is Some ==> (g.sink() matches
            Option::Some(s2) && reaches_sink(g, u, s2)),
        forall|v2: int|
            0 <= v2 < g.nodes.len() && (#[trigger] pos1[v2]) is Some ==> ancestors_in_column(
                g,
                rects,
                pos1,
                v2,
            ),
        forall|v2: int|
            0 <= v2 < g.nodes.len() && (#[trigger] pos2[v2]) is Some ==> ancestors_in_column(
                g,
                rects,
                pos2,
                v2,
            ),
    ensures
        pos1 == pos2,
{
    assert forall|u: int| 0 <= u < g.nodes.len() implies pos1[u] == pos2[u] by {
        if reaches_sink(g, u, s) {
            lemma_reachable_pinned(g, rects, s, pos1, pos2, u, g.nodes.len() as nat);
        } else {
            assert(pos1[u] is None);
            assert(pos2[u] is None);
        }
    }
    assert(pos1 =~= pos2);
}

impl WzrdNodeGraph {
    /// Records the rendered bounding-box size of a node, as reported by the
    /// host that draws it.
    pub fn set_node_rect(&mut self, n: usize, rect: NodeRect)
        requires
            n < old(self).node_rects@.len(),
        ensures
            final(self).node_rects@ == old(self).node_rects@.update(n as int, rect),
            final(self).graph == old(self).graph,
            final(self).node_order == old(self).node_order,
            final(self).node_positions == old(self).node_positions,
            final(self).node_templates == old(self).node_templates,
            final(self).user_state == old(self).user_state,
            final(self).function_stack == old(self).function_stack,
    {
        self.node_rects[n] = rect;
    }

    /// Lays out one dequeued node's connected ancestors: computes their
    /// combined bounding box, places them in a column to the node's left,
    /// and enqueues them for their own layout. The ghost `done` set holds
    /// the nodes already laid out (not yet including `v`); the result is the
    /// updated count of placed nodes.
    #[verifier::loop_isolation(false)]
    #[verifier::rlimit(100)]
    fn layout_node(
        &mut self,
        queue: &mut queues::Queue<usize>,
        v: usize,
        s: usize,
        Ghost(done): Ghost<Set<int>>,
        Ghost(placed0): Ghost<int>,
    ) -> (placed_after: Ghost<int>)
        requires
            old(self).wf(),
            is_forest(old(self).graph@),
            distinct_inputs(old(self).graph@),
            old(self).graph@.nodes.len() <= 10000,
            forall|n2: int|
                0 <= n2 < old(self).graph@.nodes.len() ==> (#[trigger] old(self).graph@.nodes[n2]).inputs.len() <= 10000,
            forall|j: int|
                0 <= j < old(self).node_rects@.len() ==> 0 <= (#[trigger] old(self).node_rects@[j]).width <= 10000 && 0 <= old(self).node_rects@[j].height <= 10000,
            old(self).graph@.sink() == Option::Some(s as int),
            (v as int) < old(self).graph@.nodes.len(),
            done.finite(),
            done.len() <= old(self).graph@.nodes.len(),
            forall|u: int| done.contains(u) ==> 0 <= u < old(self).graph@.nodes.len(),
            !done.contains(v as int),
            queue_elems(*old(queue)).no_duplicates(),
            forall|t: int|
                0 <= t < queue_elems(*old(queue)).len() ==> ((#[trigger] queue_elems(
                    *old(queue),
                )[t]) as int) < old(self).graph@.nodes.len(),
            forall|t: int|
                0 <= t < queue_elems(*old(queue)).len() ==> !done.insert(v as int).contains(
                    (#[trigger] queue_elems(*old(queue))[t]) as int,
                ),
            placed0 == done.insert(v as int).len() + queue_elems(*old(queue)).len(),
            placed0 <= old(self).graph@.nodes.len(),
            forall|u: int|
                0 <= u < old(self).graph@.nodes.len() ==> ((#[trigger] old(self).node_positions@[u]) is Some <==> (done.insert(v as int).contains(u) || in_qs(
                    queue_elems(*old(queue)),
                    u,
                ))),
            old(self).node_positions@[s as int] == Option::Some(NodePos { x: 0, y: 0 }),
            done.insert(v as int).contains(s as int) || in_qs(queue_elems(*old(queue)), s as int),
            forall|u: int|
                #![trigger done.insert(v as int).contains(u)]
                #![trigger in_qs(queue_elems(*old(queue)), u)]
                0 <= u < old(self).graph@.nodes.len() && (done.insert(v as int).contains(u)
                    || in_qs(queue_elems(*old(queue)), u)) ==> (u == s as int || exists|i: int|
                    #[trigger] feeds(old(self).graph@, i, u) && done.contains(
                        old(self).graph@.inputs[i].node,
                    )),
            forall|u: int|
                #![trigger done.insert(v as int).contains(u)]
                #![trigger in_qs(queue_elems(*old(queue)), u)]
                0 <= u < old(self).graph@.nodes.len() && (done.insert(v as int).contains(u)
                    || in_qs(queue_elems(*old(queue)), u)) ==> reaches_sink_in(
                    old(self).graph@,
                    u,
                    s as int,
                    (old(self).graph@.nodes.len() - u) as nat,
                ),
            forall|v2: int|
                0 <= v2 < old(self).graph@.nodes.len() && done.contains(v2)
                    ==> ancestors_in_column(
                    old(self).graph@,
                    old(self).node_rects@,
                    old(self).node_positions@,
                    v2,
                ),
            forall|i: int|
                0 <= i < old(self).graph@.connections.len() && (#[trigger] old(self).graph@.connections[i]) is Some && done.contains(old(self).graph@.inputs[i].node)
                    ==> (old(self).node_positions@[conn_source(old(self).graph@, i)] matches
                Option::Some(pu) && old(self).node_positions@[old(self).graph@.inputs[i].node]
                    matches Option::Some(pv) && pu.x + old(self).node_rects@[conn_source(
                    old(self).graph@,
                    i,
                )].width + X_OFFSET <= pv.x),
            forall|u: int|
                0 <= u < old(self).graph@.nodes.len() ==> ((#[trigger] old(self).node_positions@[u]) matches Option::Some(p) ==> -10050 * placed0 <= p.x <= 0
                    && -160000000 * placed0 <= p.y <= 160000000 * placed0),
        ensures
            final(self).wf(),
            final(self).graph == old(self).graph,
            final(self).node_order == old(self).node_order,
            final(self).node_rects == old(self).node_rects,
            final(self).node_templates == old(self).node_templates,
            final(self).user_state == old(self).user_state,
            final(self).function_stack == old(self).function_stack,
            final(self).node_positions@.len() == old(self).graph@.nodes.len(),
            queue_elems(*final(queue)).no_duplicates(),
            forall|t: int|
                0 <= t < queue_elems(*final(queue)).len() ==> ((#[trigger] queue_elems(
                    *final(queue),
                )[t]) as int) < old(self).graph@.nodes.len(),
            forall|t: int|
                0 <= t < queue_elems(*final(queue)).len() ==> !done.insert(v as int).contains(
                    (#[trigger] queue_elems(*final(queue))[t]) as int,
                ),
            placed_after@ == done.insert(v as int).len() + queue_elems(*final(queue)).len(),
            placed_after@ <= old(self).graph@.nodes.len(),
            forall|u: int|
                0 <= u < old(self).graph@.nodes.len() ==> ((#[trigger] final(self).node_positions@[u]) is Some <==> (done.insert(v as int).contains(u) || in_qs(
                    queue_elems(*final(queue)),
                    u,
                ))),
            final(self).node_positions@[s as int] == Option::Some(NodePos { x: 0, y: 0 }),
            done.insert(v as int).contains(s as int) || in_qs(
                queue_elems(*final(queue)),
                s as int,
            ),
            forall|u: int|
                #![trigger done.insert(v as int).contains(u)]
                #![trigger in_qs(queue_elems(*final(queue)), u)]
                0 <= u < old(self).graph@.nodes.len() && (done.insert(v as int).contains(u)
                    || in_qs(queue_elems(*final(queue)), u)) ==> (u == s as int || exists|i: int|
                    #[trigger] feeds(old(self).graph@, i, u) && done.insert(v as int).contains(
                        old(self).graph@.inputs[i].node,
                    )),
            forall|u: int|
                #![trigger done.insert(v as int).contains(u)]
                #![trigger in_qs(queue_elems(*final(queue)), u)]
                0 <= u < old(self).graph@.nodes.len() && (done.insert(v as int).contains(u)
                    || in_qs(queue_elems(*final(queue)), u)) ==> reaches_sink_in(
                    old(self).graph@,
                    u,
                    s as int,
                    (old(self).graph@.nodes.len() - u) as nat,
                ),
            forall|v2: int|
                0 <= v2 < old(self).graph@.nodes.len() && done.insert(v as int).contains(v2)
                    ==> ancestors_in_column(
                    old(self).graph@,
                    old(self).node_rects@,
                    final(self).node_positions@,
                    v2,
                ),
            forall|i: int|
                0 <= i < old(self).graph@.connections.len() && (#[trigger] old(self).graph@.connections[i]) is Some && done.insert(v as int).contains(
                    old(self).graph@.inputs[i].node,
                ) ==> (final(self).node_positions@[conn_source(old(self).graph@, i)] matches
                Option::Some(pu) && final(self).node_positions@[old(self).graph@.inputs[i].node]
                    matches Option::Some(pv) && pu.x + old(self).node_rects@[conn_source(
                    old(self).graph@,
                    i,
                )].width + X_OFFSET <= pv.x),
            forall|u: int|
                0 <= u < old(self).graph@.nodes.len() ==> ((#[trigger] final(self).node_positions@[u]) matches Option::Some(p) ==> -10050 * placed_after@ <= p.x
                    <= 0 && -160000000 * placed_after@ <= p.y <= 160000000 * placed_after@),
    {
        let ghost g = self.graph@;
        let n = self.graph.nodes.len();
        let ghost done_mid = done.insert(v as int);
        let ghost mut placed: int = placed0;
        let vins_len = self.graph.nodes[v].inputs.len();
        proof {
            assert(g.nodes[v as int] == self.graph.nodes@[v as int]@);
            assert(vins_len as int == g.nodes[v as int].inputs.len());
        }
        // Pass one: the combined bounding box of the connected ancestors —
        // the widest width, and the heights summed with a gap between
        // consecutive boxes.
        let mut max_w: i64 = 0;
        let mut sum_h: i64 = 0;
        let mut cnt_anc: usize = 0;
        let mut k: usize = 0;
        while k < vins_len
            invariant
                k <= vins_len,
                0 <= max_w <= 10000,
                cnt_anc <= k,
                0 <= sum_h <= 10050 * k,
                max_w as int == anc_max_width(g, self.node_rects@, v as int, k as int),
                sum_h as int == anc_sum_height(g, self.node_rects@, v as int, k as int),
                cnt_anc as int == anc_count(g, v as int, k as int),
                forall|k2: int|
                    0 <= k2 < k && g.connections[g.nodes[v as int].inputs[k2]] is Some ==> max_w
                        >= self.node_rects@[conn_source(
                        g,
                        #[trigger] g.nodes[v as int].inputs[k2],
                    )].width,
            decreases vins_len - k,
        {
            let i = self.graph.nodes[v].inputs[k];
            proof {
                assert(g.nodes[v as int].inputs[k as int] == i as int);
                assert(0 <= g.nodes[v as int].inputs[k as int] < g.inputs.len());
            }
            match self.graph.connections[i] {
                Option::Some(o) => {
                    proof {
                        assert(g.connections[i as int] == Option::Some(o as int));
                        assert(g.outputs[o as int].node < g.inputs[i as int].node);
                        assert(conn_source(g, i as int) == g.outputs[o as int].node);
                    }
                    let u = self.graph.outputs[o].node;
                    let r = self.node_rects[u];
                    proof {
                        assert(r == self.node_rects@[u as int]);
                        assert(conn_source(g, g.nodes[v as int].inputs[k as int]) == u as int);
                    }
                    if r.width > max_w {
                        max_w = r.width;
                    }
                    if cnt_anc > 0 {
                        sum_h = sum_h + Y_OFFSET;
                    }
                    sum_h = sum_h + r.height;
                    cnt_anc = cnt_anc + 1;
                },
                Option::None => {},
            }
            k = k + 1;
        }
        let vpos = match self.node_positions[v] {
            Option::Some(p) => p,
            Option::None => {
                proof {
                    assert(done_mid.contains(v as int));
                    assert(false);
                }
                NodePos { x: 0, y: 0 }
            },
        };
        let vrect = self.node_rects[v];
        let baseline: i64 = vpos.y + vrect.height / 2;
        let first_x: i64 = vpos.x - X_OFFSET - max_w;
        let first_y: i64 = baseline - sum_h / 2;
        let mut ycur: i64 = first_y;
        // Pass two: place each connected ancestor in the column and enqueue
        // it so its own ancestors fan out further left.
        let mut k2: usize = 0;
        while k2 < vins_len
            invariant
                k2 <= vins_len,
                self.graph == old(self).graph,
                self.node_order == old(self).node_order,
                self.node_rects == old(self).node_rects,
                self.node_templates == old(self).node_templates,
                self.user_state == old(self).user_state,
                self.function_stack == old(self).function_stack,
                self.node_positions@.len() == n,
                queue_elems(*queue).no_duplicates(),
                forall|t: int|
                    0 <= t < queue_elems(*queue).len() ==> ((#[trigger] queue_elems(
                        *queue,
                    )[t]) as int) < n,
                forall|t: int|
                    0 <= t < queue_elems(*queue).len() ==> !done_mid.contains(
                        (#[trigger] queue_elems(*queue)[t]) as int,
                    ),
                placed == done_mid.len() + queue_elems(*queue).len(),
                placed <= n,
                first_y <= ycur <= first_y + 10050 * k2,
                ycur as int == first_y + anc_stack_y(g, self.node_rects@, v as int, k2 as int),
                forall|u: int|
                    0 <= u < n ==> ((#[trigger] self.node_positions@[u]) is Some <==> (
                    done_mid.contains(u) || in_qs(queue_elems(*queue), u))),
                self.node_positions@[s as int] == Option::Some(NodePos { x: 0, y: 0 }),
                done_mid.contains(s as int) || in_qs(queue_elems(*queue), s as int),
                self.node_positions@[v as int] == Option::Some(vpos),
                forall|u: int|
                    #![trigger done_mid.contains(u)]
                    #![trigger in_qs(queue_elems(*queue), u)]
                    0 <= u < n && (done_mid.contains(u) || in_qs(queue_elems(*queue), u)) ==> (u
                        == s as int || exists|i: int|
                        #[trigger] feeds(g, i, u) && (done.contains(g.inputs[i].node) || (
                        g.inputs[i].node == v as int && exists|k3: int|
                            0 <= k3 < k2 && g.nodes[v as int].inputs[k3] == i))),
                forall|i: int|
                    0 <= i < g.connections.len() && (#[trigger] g.connections[i]) is Some
                        && done.contains(g.inputs[i].node) ==> (
                    self.node_positions@[conn_source(g, i)] matches Option::Some(pu)
                        && self.node_positions@[g.inputs[i].node] matches Option::Some(pv) && pu.x
                        + self.node_rects@[conn_source(g, i)].width + X_OFFSET <= pv.x),
                forall|k3: int|
                    0 <= k3 < k2 && g.connections[g.nodes[v as int].inputs[k3]] is Some ==> (
                    self.node_positions@[conn_source(
                        g,
                        #[trigger] g.nodes[v as int].inputs[k3],
                    )] matches Option::Some(pu) && pu.x == first_x && pu.y == first_y
                        + anc_stack_y(g, self.node_rects@, v as int, k3)),
                forall|v2: int|
                    0 <= v2 < n && done.contains(v2) ==> ancestors_in_column(
                        g,
                        self.node_rects@,
                        self.node_positions@,
                        v2,
                    ),
                forall|u: int|
                    #![trigger done_mid.contains(u)]
                    #![trigger in_qs(queue_elems(*queue), u)]
                    0 <= u < n && (done_mid.contains(u) || in_qs(queue_elems(*queue), u))
                        ==> reaches_sink_in(g, u, s as int, (n - u) as nat),
                forall|u: int|
                    0 <= u < n ==> ((#[trigger] self.node_positions@[u]) matches Option::Some(p)
                        ==> -10050 * placed <= p.x <= 0 && -160000000 * placed <= p.y <= 160000000
                        * placed),
            decreases vins_len - k2,
        {
            let i = self.graph.nodes[v].inputs[k2];
            proof {
                assert(g.nodes[v as int].inputs[k2 as int] == i as int);
                assert(0 <= g.nodes[v as int].inputs[k2 as int] < g.inputs.len());
                assert(g.inputs[i as int].node == v as int);
            }
            match self.graph.connections[i] {
                Option::Some(o) => {
                    proof {
                        assert(g.connections[i as int] == Option::Some(o as int));
                        assert(conn_source(g, i as int) == g.outputs[o as int].node);
                        assert(feeds(g, i as int, g.outputs[o as int].node));
                    }
                    let u = self.graph.outputs[o].node;
                    proof {
                        // The ancestor feeds this node, so it is not the
                        // sink, and in a forest it was not placed before.
                        assert(g.has_outgoing(u as int));
                        assert(u as int != s as int) by {
                            lemma_sink_no_outgoing(g, g.nodes.len() as int);
                        }
                        if done_mid.contains(u as int) || in_qs(queue_elems(*queue), u as int) {
                            let i2 = choose|i2: int|
                                #[trigger] feeds(g, i2, u as int) && (done.contains(
                                    g.inputs[i2].node,
                                ) || (g.inputs[i2].node == v as int && exists|k3: int|
                                    0 <= k3 < k2 && g.nodes[v as int].inputs[k3] == i2));
                            assert(conn_source(g, i2) == conn_source(g, i as int));
                            assert(i2 == i as int);
                            if done.contains(g.inputs[i2].node) {
                                assert(done.contains(v as int));
                                assert(false);
                            } else {
                                let k3 = choose|k3: int|
                                    0 <= k3 < k2 && g.nodes[v as int].inputs[k3] == i as int;
                                assert(g.nodes[v as int].inputs[k3] == g.nodes[v as int].inputs[
                                    k2 as int
                                ]);
                                assert(false);
                            }
                        }
                        assert(!done_mid.contains(u as int));
                        assert(!in_qs(queue_elems(*queue), u as int));
                        assert(self.node_positions@[u as int] is None);
                    }
                    let ghost pos_pre = self.node_positions@;
                    let ghost qs_pre = queue_elems(*queue);
                    let r = self.node_rects[u];
                    self.node_positions[u] = Option::Some(NodePos { x: first_x, y: ycur });
                    queue_add(queue, u);
                    proof {
                        placed = placed + 1;
                        assert(queue_elems(*queue) =~= qs_pre.push(u));
                        assert forall|t: int|
                            0 <= t < queue_elems(*queue).len() implies !done_mid.contains(
                            (#[trigger] queue_elems(*queue)[t]) as int,
                        ) by {
                            if t < qs_pre.len() {
                                assert(queue_elems(*queue)[t] == qs_pre[t]);
                            }
                        }
                        assert(queue_elems(*queue).no_duplicates()) by {
                            assert(forall|t: int|
                                0 <= t < qs_pre.len() ==> (#[trigger] qs_pre[t]) != u);
                        }
                        lemma_placed_count(done_mid, queue_elems(*queue), n as int);
                        assert(placed <= n);
                        // The fresh position keeps every bound.
                        assert(-10050 * placed <= first_x <= 0);
                        assert(-160000000 * placed <= ycur <= 160000000 * placed) by {
                            assert(-160000000 * (placed - 1) <= vpos.y <= 160000000 * (placed
                                - 1));
                            assert(0 <= sum_h <= 10050 * vins_len);
                            assert(first_y <= ycur <= first_y + 10050 * k2);
                        }
                        assert(in_qs(queue_elems(*queue), u as int)) by {
                            assert(queue_elems(*queue)[queue_elems(*queue).len() - 1] == u);
                        }
                        // Older placements are untouched.
                        assert(forall|w: int|
                            0 <= w < n && w != u as int ==> #[trigger] self.node_positions@[w]
                                == pos_pre[w]);
                        assert forall|w: int|
                            0 <= w < n implies ((#[trigger] self.node_positions@[w]) is Some <==> (
                        done_mid.contains(w) || in_qs(queue_elems(*queue), w))) by {
                            if w == u as int {
                            } else {
                                if in_qs(queue_elems(*queue), w) {
                                    let t = choose|t: int|
                                        0 <= t < queue_elems(*queue).len() && (#[trigger] queue_elems(
                                            *queue,
                                        )[t]) as int == w;
                                    assert(t < qs_pre.len());
                                    assert(qs_pre[t] as int == w);
                                    assert(in_qs(qs_pre, w));
                                }
                                if in_qs(qs_pre, w) {
                                    let t = choose|t: int|
                                        0 <= t < qs_pre.len() && (#[trigger] qs_pre[t]) as int
                                            == w;
                                    assert(queue_elems(*queue)[t] as int == w);
                                    assert(in_qs(queue_elems(*queue), w));
                                }
                            }
                        }
                        assert(self.node_positions@[s as int] == Option::Some(
                            NodePos { x: 0, y: 0 },
                        ));
                        assert(done_mid.contains(s as int) || in_qs(
                            queue_elems(*queue),
                            s as int,
                        ));
                        // The fresh ancestor reaches the sink through this
                        // node, in one more step than this node needs.
                        assert(reaches_sink_in(g, u as int, s as int, (n - u) as nat)) by {
                            assert(done_mid.contains(v as int));
                            assert(reaches_sink_in(g, v as int, s as int, (n - v) as nat));
                            assert((u as int) < v as int);
                            lemma_reaches_sink_mono(
                                g,
                                v as int,
                                s as int,
                                (n - v) as nat,
                                (n - u - 1) as nat,
                            );
                            assert(feeds(g, i as int, u as int) && reaches_sink_in(
                                g,
                                g.inputs[i as int].node,
                                s as int,
                                (n - u - 1) as nat,
                            ));
                        }
                        assert forall|w: int|
                            0 <= w < n && (done_mid.contains(w) || in_qs(queue_elems(*queue), w)) implies reaches_sink_in(
                            g,
                            w,
                            s as int,
                            (n - w) as nat,
                        ) by {
                            if w != u as int && in_qs(queue_elems(*queue), w) {
                                let t = choose|t: int|
                                    0 <= t < queue_elems(*queue).len() && (#[trigger] queue_elems(
                                        *queue,
                                    )[t]) as int == w;
                                if t < qs_pre.len() {
                                    assert(qs_pre[t] as int == w);
                                    assert(in_qs(qs_pre, w));
                                }
                            }
                        }
                        // Columns recorded for laid-out nodes are untouched:
                        // the fresh ancestor was unplaced, so it is neither a
                        // laid-out node nor any of their placed ancestors.
                        assert forall|v2: int|
                            0 <= v2 < n && done.contains(v2) implies ancestors_in_column(
                            g,
                            self.node_rects@,
                            self.node_positions@,
                            v2,
                        ) by {
                            assert(ancestors_in_column(g, self.node_rects@, pos_pre, v2));
                            assert forall|k3: int|
                                0 <= k3 < g.nodes[v2].inputs.len() && g.connections[#[trigger] g.nodes[v2].inputs[k3]] is Some implies ancestor_placed(
                                g,
                                self.node_rects@,
                                self.node_positions@,
                                v2,
                                k3,
                            ) by {
                                assert(ancestor_placed(g, self.node_rects@, pos_pre, v2, k3));
                                let src = conn_source(g, g.nodes[v2].inputs[k3]);
                                assert(0 <= g.nodes[v2].inputs[k3] < g.inputs.len());
                                assert(0 <= src < n);
                                assert(pos_pre[src] is Some);
                                assert(src != u as int);
                                assert(done_mid.contains(v2));
                                assert(v2 != u as int);
                                assert(self.node_positions@[src] == pos_pre[src]);
                                assert(self.node_positions@[v2] == pos_pre[v2]);
                            }
                        }
                        assert(anc_stack_y(g, self.node_rects@, v as int, k2 as int + 1)
                            == anc_stack_y(g, self.node_rects@, v as int, k2 as int) + (
                        self.node_rects@[u as int].height as int) + Y_OFFSET as int);
                    }
                    ycur = ycur + r.height + Y_OFFSET;
                },
                Option::None => {},
            }
            k2 = k2 + 1;
        }
        proof {
            lemma_restore_guarantees(
                g,
                n as int,
                s as int,
                v as int,
                done,
                self.node_positions@,
                self.node_rects@,
                queue_elems(*queue),
                vpos,
                first_x as int,
                max_w as int,
            );
            // The freshly laid-out node's ancestors stand in its column:
            // each sits at the shared x, offset down the stack by the
            // heights and gaps of the connected ancestors before it.
            let arity = g.nodes[v as int].inputs.len() as int;
            assert forall|k3: int|
                0 <= k3 < arity && g.connections[#[trigger] g.nodes[v as int].inputs[k3]] is Some implies ancestor_placed(
                g,
                self.node_rects@,
                self.node_positions@,
                v as int,
                k3,
            ) by {
                assert(self.node_positions@[conn_source(g, g.nodes[v as int].inputs[k3])] matches
                    Option::Some(pu) && pu.x == first_x && pu.y == first_y + anc_stack_y(
                    g,
                    self.node_rects@,
                    v as int,
                    k3,
                ));
                assert(max_w as int == anc_max_width(g, self.node_rects@, v as int, arity));
                assert(sum_h as int == anc_sum_height(g, self.node_rects@, v as int, arity));
                assert(vrect == self.node_rects@[v as int]);
                assert(vrect.height >= 0);
                assert(sum_h >= 0);
                assert(baseline as int == vpos.y + (vrect.height as int) / 2);
                assert(first_y as int == baseline - (sum_h as int) / 2);
                assert(first_x as int == vpos.x - X_OFFSET - max_w);
                assert(self.node_positions@[v as int] == Option::Some(vpos));
            }
            assert forall|v2: int|
                0 <= v2 < n && done_mid.contains(v2) implies ancestors_in_column(
                g,
                self.node_rects@,
                self.node_positions@,
                v2,
            ) by {
                if v2 != v as int {
                    assert(done.contains(v2));
                }
            }
        }
        Ghost(placed)
    }

    /// Runs the breadth-first layout from the sink: seeds it at the origin,
    /// then lays out each dequeued node's ancestors until the queue drains.
    #[verifier::loop_isolation(false)]
    #[verifier::rlimit(100)]
    fn layout_from_sink(&mut self, s: usize)
        requires
            old(self).wf(),
            is_forest(old(self).graph@),
            distinct_inputs(old(self).graph@),
            old(self).graph@.nodes.len() <= 10000,
            forall|n2: int|
                0 <= n2 < old(self).graph@.nodes.len() ==> (#[trigger] old(self).graph@.nodes[n2]).inputs.len() <= 10000,
            forall|j: int|
                0 <= j < old(self).node_rects@.len() ==> 0 <= (#[trigger] old(self).node_rects@[j]).width <= 10000 && 0 <= old(self).node_rects@[j].height <= 10000,
            old(self).graph@.sink() == Option::Some(s as int),
            (s as int) < old(self).graph@.nodes.len(),
            forall|j: int|
                0 <= j < old(self).node_positions@.len() ==> (#[trigger] old(self).node_positions@[j]) is None,
        ensures
            final(self).wf(),
            final(self).graph == old(self).graph,
            final(self).node_order == old(self).node_order,
            final(self).node_rects == old(self).node_rects,
            final(self).node_templates == old(self).node_templates,
            final(self).user_state == old(self).user_state,
            final(self).function_stack == old(self).function_stack,
            final(self).node_positions@.len() == old(self).graph@.nodes.len(),
            final(self).node_positions@[s as int] == Option::Some(NodePos { x: 0, y: 0 }),
            forall|u: int|
                0 <= u < old(self).graph@.nodes.len() && (#[trigger] final(self).node_positions@[u]) is Some ==> (old(self).graph@.sink() matches Option::Some(s2)
                    && reaches_sink(old(self).graph@, u, s2)),
            forall|v2: int|
                0 <= v2 < old(self).graph@.nodes.len() && (#[trigger] final(self).node_positions@[v2]) is Some ==> ancestors_in_column(
                    old(self).graph@,
                    old(self).node_rects@,
                    final(self).node_positions@,
                    v2,
                ),
            forall|i: int|
                0 <= i < old(self).graph@.connections.len() && (#[trigger] old(self).graph@.connections[i]) is Some && final(self).node_positions@[old(self).graph@.inputs[i].node] is Some ==> (final(self).node_positions@[conn_source(
                    old(self).graph@,
                    i,
                )] matches Option::Some(pu) && final(self).node_positions@[old(self).graph@.inputs[i].node] matches Option::Some(pv) && pu.x + old(self).node_rects@[conn_source(old(self).graph@, i)].width + X_OFFSET <= pv.x),
    {
        let ghost g = self.graph@;
        let n = self.graph.nodes.len();
        proof {
            lemma_sink_no_outgoing(g, g.nodes.len() as int);
        }
        self.node_positions[s] = Option::Some(NodePos { x: 0, y: 0 });
        let mut queue = queue_new();
        queue_add(&mut queue, s);
        let ghost mut done: Set<int> = Set::empty();
        let ghost mut placed: int = 1;
        proof {
            assert(queue_elems(queue) =~= seq![s]);
            assert(in_qs(queue_elems(queue), s as int)) by {
                assert(queue_elems(queue)[0] == s);
            }
            assert forall|u: int|
                0 <= u < n implies ((#[trigger] self.node_positions@[u]) is Some <==> (
            done.contains(u) || in_qs(queue_elems(queue), u))) by {
                if in_qs(queue_elems(queue), u) {
                    let t = choose|t: int|
                        0 <= t < queue_elems(queue).len() && (#[trigger] queue_elems(
                            queue,
                        )[t]) as int == u;
                    assert(queue_elems(queue)[t] == s);
                }
            }
            assert forall|u: int|
                0 <= u < n && (done.contains(u) || in_qs(queue_elems(queue), u)) implies reaches_sink_in(
                g,
                u,
                s as int,
                (n - u) as nat,
            ) by {
                let t = choose|t: int|
                    0 <= t < queue_elems(queue).len() && (#[trigger] queue_elems(
                        queue,
                    )[t]) as int == u;
                assert(queue_elems(queue)[t] == s);
                assert(u == s as int);
            }
        }
        let mut sz = queue_size(&queue);
        while sz > 0
            invariant
                self.graph == old(self).graph,
                self.node_order == old(self).node_order,
                self.node_rects == old(self).node_rects,
                self.node_templates == old(self).node_templates,
                self.user_state == old(self).user_state,
                self.function_stack == old(self).function_stack,
                self.node_positions@.len() == n,
                sz == queue_elems(queue).len(),
                done.finite(),
                done.len() <= n,
                forall|u: int| done.contains(u) ==> 0 <= u < n,
                queue_elems(queue).no_duplicates(),
                forall|t: int|
                    0 <= t < queue_elems(queue).len() ==> ((#[trigger] queue_elems(
                        queue,
                    )[t]) as int) < n,
                forall|t: int|
                    0 <= t < queue_elems(queue).len() ==> !done.contains(
                        (#[trigger] queue_elems(queue)[t]) as int,
                    ),
                placed == done.len() + queue_elems(queue).len(),
                placed <= n,
                forall|u: int|
                    0 <= u < n ==> ((#[trigger] self.node_positions@[u]) is Some <==> (
                    done.contains(u) || in_qs(queue_elems(queue), u))),
                self.node_positions@[s as int] == Option::Some(NodePos { x: 0, y: 0 }),
                done.contains(s as int) || in_qs(queue_elems(queue), s as int),
                forall|u: int|
                    #![trigger done.contains(u)]
                    #![trigger in_qs(queue_elems(queue), u)]
                    0 <= u < n && (done.contains(u) || in_qs(queue_elems(queue), u)) ==> (
                    u == s as int || exists|i: int|
                        #[trigger] feeds(g, i, u) && done.contains(g.inputs[i].node)),
                forall|u: int|
                    #![trigger done.contains(u)]
                    #![trigger in_qs(queue_elems(queue), u)]
                    0 <= u < n && (done.contains(u) || in_qs(queue_elems(queue), u))
                        ==> reaches_sink_in(g, u, s as int, (n - u) as nat),
                forall|v2: int|
                    0 <= v2 < n && done.contains(v2) ==> ancestors_in_column(
                        g,
                        self.node_rects@,
                        self.node_positions@,
                        v2,
                    ),
                forall|i: int|
                    0 <= i < g.connections.len() && (#[trigger] g.connections[i]) is Some
                        && done.contains(g.inputs[i].node) ==> (
                    self.node_positions@[conn_source(g, i)] matches Option::Some(pu)
                        && self.node_positions@[g.inputs[i].node] matches Option::Some(pv)
                        && pu.x + self.node_rects@[conn_source(g, i)].width + X_OFFSET
                        <= pv.x),
                forall|u: int|
                    0 <= u < n ==> ((#[trigger] self.node_positions@[u]) matches
                    Option::Some(p) ==> -10050 * placed <= p.x <= 0 && -160000000 * placed
                        <= p.y <= 160000000 * placed),
            decreases n - done.len(),
        {
            let ghost qs0 = queue_elems(queue);
            let v = match queue_remove(&mut queue) {
                Option::Some(v) => v,
                Option::None => {
                    proof {
                        assert(false);
                    }
                    0
                },
            };
            proof {
                assert(v == qs0[0]);
                assert(!done.contains(v as int));
                assert(in_qs(qs0, v as int));
                assert(queue_elems(queue) =~= qs0.drop_first());
                assert(queue_elems(queue).no_duplicates());
                assert forall|t: int|
                    0 <= t < queue_elems(queue).len() implies (#[trigger] queue_elems(
                    queue,
                )[t]) as int != v as int by {
                    assert(queue_elems(queue)[t] == qs0[t + 1]);
                }
            }
            let ghost done_mid = done.insert(v as int);
            proof {
                assert(done_mid.len() == done.len() + 1);
                assert forall|u: int|
                    0 <= u < n implies ((#[trigger] self.node_positions@[u]) is Some <==> (
                done_mid.contains(u) || in_qs(queue_elems(queue), u))) by {
                    if self.node_positions@[u] is Some {
                        if !done.contains(u) {
                            let t = choose|t: int|
                                0 <= t < qs0.len() && (#[trigger] qs0[t]) as int == u;
                            if t > 0 {
                                assert(queue_elems(queue)[t - 1] == qs0[t]);
                                assert(in_qs(queue_elems(queue), u));
                            }
                        }
                    }
                    if in_qs(queue_elems(queue), u) {
                        let t = choose|t: int|
                            0 <= t < queue_elems(queue).len() && (#[trigger] queue_elems(
                                queue,
                            )[t]) as int == u;
                        assert(qs0[t + 1] as int == u);
                        assert(in_qs(qs0, u));
                    }
                }
                if in_qs(queue_elems(queue), s as int) || done_mid.contains(s as int) {
                } else {
                    assert(done.contains(s as int) || in_qs(qs0, s as int));
                    assert(s == v);
                }
                assert forall|u: int|
                    0 <= u < n && (done_mid.contains(u) || in_qs(queue_elems(queue), u)) implies (
                u == s as int || exists|i: int|
                    #[trigger] feeds(g, i, u) && done.contains(g.inputs[i].node)) by {
                    if in_qs(queue_elems(queue), u) {
                        let t = choose|t: int|
                            0 <= t < queue_elems(queue).len() && (#[trigger] queue_elems(
                                queue,
                            )[t]) as int == u;
                        assert(qs0[t + 1] as int == u);
                        assert(in_qs(qs0, u));
                    }
                    if done_mid.contains(u) && !done.contains(u) {
                        assert(u == v as int);
                        assert(in_qs(qs0, u));
                    }
                    assert(done.contains(u) || in_qs(qs0, u));
                }
                assert forall|u: int|
                    0 <= u < n && (done_mid.contains(u) || in_qs(queue_elems(queue), u)) implies reaches_sink_in(
                    g,
                    u,
                    s as int,
                    (n - u) as nat,
                ) by {
                    if in_qs(queue_elems(queue), u) {
                        let t = choose|t: int|
                            0 <= t < queue_elems(queue).len() && (#[trigger] queue_elems(
                                queue,
                            )[t]) as int == u;
                        assert(qs0[t + 1] as int == u);
                        assert(in_qs(qs0, u));
                    }
                    if done_mid.contains(u) && !done.contains(u) {
                        assert(u == v as int);
                        assert(in_qs(qs0, u));
                    }
                    assert(done.contains(u) || in_qs(qs0, u));
                }
            }
            let placed_after = self.layout_node(
                &mut queue,
                v,
                s,
                Ghost(done),
                Ghost(placed),
            );
            proof {
                done = done_mid;
                placed = placed_after@;
            }
            sz = queue_size(&queue);
        }
        proof {
            assert(queue_elems(queue).len() == 0);
            lemma_drained_queue_guarantees(
                g,
                n as int,
                s as int,
                done,
                queue_elems(queue),
                self.node_positions@,
                self.node_rects@,
            );
        }
    }

    /// Recomputes every node position for an imported graph.
    ///
    /// The sink is placed at the origin and the traversal stacks each node's
    /// connected ancestors in a column to its left; nodes not backward-
    /// reachable from the sink are left unplaced, and a graph without a sink
    /// leaves every node unplaced. By [`lemma_layout_determined`], these
    /// guarantees pin the whole placement, so the pass is idempotent while
    /// the rendered boxes stay stable. The graph must have the shape the
    /// importer produces — forest-like, with distinct input ports per node —
    /// and the node count and rendered sizes must be small enough for the
    /// coordinate arithmetic to stay in range.
    #[verifier::loop_isolation(false)]
    #[verifier::rlimit(100)]
    pub fn format_graph(&mut self)
        requires
            old(self).wf(),
            is_forest(old(self).graph@),
            distinct_inputs(old(self).graph@),
            old(self).graph@.nodes.len() <= 10000,
            forall|n2: int|
                0 <= n2 < old(self).graph@.nodes.len() ==> (#[trigger] old(self).graph@.nodes[n2]).inputs.len() <= 10000,
            forall|j: int|
                0 <= j < old(self).node_rects@.len() ==> 0 <= (#[trigger] old(self).node_rects@[j]).width <= 10000 && 0 <= old(self).node_rects@[j].height <= 10000,
        ensures
            final(self).wf(),
            final(self).graph == old(self).graph,
            final(self).node_order == old(self).node_order,
            final(self).node_rects == old(self).node_rects,
            final(self).node_templates == old(self).node_templates,
            final(self).user_state == old(self).user_state,
            final(self).function_stack == old(self).function_stack,
            final(self).node_positions@.len() == old(self).graph@.nodes.len(),
            match old(self).graph@.sink() {
                Option::Some(s) => final(self).node_positions@[s] == Option::Some(
                    NodePos { x: 0, y: 0 },
                ),
                Option::None => forall|j: int|
                    0 <= j < final(self).node_positions@.len() ==> (#[trigger] final(self).node_positions@[j]) is None,
            },
            // Only nodes on a backward path from the sink are placed.
            forall|u: int|
                0 <= u < old(self).graph@.nodes.len() && (#[trigger] final(self).node_positions@[u]) is Some ==> (old(self).graph@.sink() matches Option::Some(s)
                    && reaches_sink(old(self).graph@, u, s)),
            // Every placed node's connected ancestors stand in its column:
            // one x position left of it by the gap plus the widest ancestor,
            // stacked from its vertical midpoint minus half their combined
            // height, each followed by its own height plus the gap.
            forall|v2: int|
                0 <= v2 < old(self).graph@.nodes.len() && (#[trigger] final(self).node_positions@[v2]) is Some ==> ancestors_in_column(
                    old(self).graph@,
                    old(self).node_rects@,
                    final(self).node_positions@,
                    v2,
                ),
            // Every placed consumer has its connected ancestors placed
            // strictly to its left, a gap and the ancestor's width apart.
            forall|i: int|
                0 <= i < old(self).graph@.connections.len() && (#[trigger] old(self).graph@.connections[i]) is Some && final(self).node_positions@[old(self).graph@.inputs[i].node] is Some ==> (final(self).node_positions@[conn_source(
                    old(self).graph@,
                    i,
                )] matches Option::Some(pu) && final(self).node_positions@[old(self).graph@.inputs[i].node] matches Option::Some(pv) && pu.x + old(self).node_rects@[conn_source(old(self).graph@, i)].width + X_OFFSET <= pv.x),
    {
        let ghost g = self.graph@;
        let n = self.graph.nodes.len();
        let mut fresh: Vec<Option<NodePos>> = Vec::new();
        while fresh.len() < n
            invariant
                fresh@.len() <= n,
                forall|j: int| 0 <= j < fresh@.len() ==> (#[trigger] fresh@[j]) is None,
            decreases n - fresh@.len(),
        {
            fresh.push(Option::None);
        }
        self.node_positions = fresh;
        let sink = self.find_last_node();
        match sink {
            Option::Some(s) => {
                proof {
                    lemma_sink_in_range(g, g.nodes.len() as int);
                }
                self.layout_from_sink(s);
            },
            Option::None => {},
        }
    }
}

} // verus!
