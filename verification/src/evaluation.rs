//! The order in which the nodes of an unrolled graph are evaluated.
//!
//! A node is evaluated from the outputs of its inputs, so every node has to
//! come after all of its inputs. Such an order exists unless connections run
//! in a circle.

use crate::algorithm::{Algorithm, AlgorithmView};
use crate::graph::{
    inputs_match, lemma_counterpart, lemma_unrolling_is_unique, UnrolledGraph, UnrolledGraphView,
};
use vstd::prelude::*;
use vstd::seq_lib::seq_to_set_is_finite;
use vstd::set_lib::{lemma_int_range, lemma_len_subset, lemma_subset_equality, set_int_range};

verus! {

/// `node` stands in `order` before position `position`.
pub open spec fn comes_before(order: Seq<usize>, position: int, node: usize) -> bool {
    exists|q: int| 0 <= q < position && q < order.len() && #[trigger] order[q] == node
}

/// `order` lists distinct nodes of a graph with `count` nodes.
pub open spec fn lists_distinct_nodes(order: Seq<usize>, count: nat) -> bool {
    &&& forall|p: int| 0 <= p < order.len() ==> (#[trigger] order[p]) < count
    &&& forall|p: int, q: int|
        0 <= p < q < order.len() ==> #[trigger] order[p] != #[trigger] order[q]
}

impl UnrolledGraphView {
    /// Every input of every node of `order` stands in `order` before the
    /// node.
    pub open spec fn inputs_come_first(self, order: Seq<usize>) -> bool {
        forall|p: int, m: int|
            0 <= p < order.len() && 0 <= m < self.nodes[order[p] as int].inputs.len()
                ==> comes_before(order, p, #[trigger] self.nodes[order[p] as int].inputs[m])
    }

    /// `order` is an order of evaluation: it lists every node of the graph
    /// once, and each node after all of its inputs.
    pub open spec fn is_evaluation_order(self, order: Seq<usize>) -> bool {
        &&& order.len() == self.nodes.len()
        &&& lists_distinct_nodes(order, self.nodes.len())
        &&& self.inputs_come_first(order)
    }

    /// All inputs of node `i` are nodes of the graph that `placed` marks.
    pub open spec fn is_ready(self, placed: Seq<bool>, i: int) -> bool {
        forall|m: int|
            0 <= m < self.nodes[i].inputs.len() ==> {
                &&& (#[trigger] self.nodes[i].inputs[m]) < self.nodes.len()
                &&& placed[self.nodes[i].inputs[m] as int]
            }
    }
}

/// `order` holds `node`.
spec fn lists(order: Seq<usize>, node: int) -> bool {
    exists|p: int| 0 <= p < order.len() && #[trigger] order[p] == node
}

/// The entries of a list of indices as integers.
spec fn as_ints(order: Seq<usize>) -> Seq<int> {
    Seq::new(order.len(), |p: int| order[p] as int)
}

/// A list of distinct nodes of a graph holds at most as many entries as the
/// graph has nodes, and every node if it holds that many.
proof fn lemma_distinct_nodes(order: Seq<usize>, count: nat)
    requires
        lists_distinct_nodes(order, count),
    ensures
        order.len() <= count,
        order.len() == count ==> forall|i: int| 0 <= i < count ==> #[trigger] lists(order, i),
        (forall|i: int| 0 <= i < count ==> #[trigger] lists(order, i)) ==> order.len() == count,
{
    broadcast use seq_to_set_is_finite;

    let ints = as_ints(order);
    let range = set_int_range(0, count as int);
    assert(ints.no_duplicates()) by {
        assert forall|p: int, q: int|
            0 <= p < ints.len() && 0 <= q < ints.len() && p != q implies ints[p] != ints[q] by {
            if p < q {
                assert(order[p] != order[q]);
            } else {
                assert(order[q] != order[p]);
            }
        }
    }
    ints.unique_seq_to_set();
    lemma_int_range(0, count as int);
    assert(ints.to_set().subset_of(range)) by {
        assert forall|x: int| ints.to_set().contains(x) implies range.contains(x) by {
            let p = choose|p: int| 0 <= p < ints.len() && ints[p] == x;
            assert(order[p] < count);
        }
    }
    lemma_len_subset(ints.to_set(), range);
    if order.len() == count {
        lemma_subset_equality(ints.to_set(), range);
        assert forall|i: int| 0 <= i < count implies #[trigger] lists(order, i) by {
            assert(range.contains(i));
            assert(ints.to_set().contains(i));
            let p = choose|p: int| 0 <= p < ints.len() && ints[p] == i;
            assert(order[p] == i);
        }
    }
    if forall|i: int| 0 <= i < count ==> #[trigger] lists(order, i) {
        assert(range.subset_of(ints.to_set())) by {
            assert forall|x: int| range.contains(x) implies ints.to_set().contains(x) by {
                assert(lists(order, x));
                let p = choose|p: int| 0 <= p < order.len() && #[trigger] order[p] == x;
                assert(ints[p] == x);
            }
        }
        lemma_len_subset(range, ints.to_set());
    }
}

/// Where every node that `placed` leaves out waits for an input that is
/// left out too, or that is no node at all, an order of evaluation gives a
/// place only to nodes that `placed` marks.
proof fn lemma_waiting_node_has_no_place(
    g: UnrolledGraphView,
    placed: Seq<bool>,
    order: Seq<usize>,
    position: int,
)
    requires
        g.is_evaluation_order(order),
        placed.len() == g.nodes.len(),
        forall|j: int| 0 <= j < g.nodes.len() && !(#[trigger] placed[j]) ==> !g.is_ready(placed, j),
        0 <= position < order.len(),
    ensures
        placed[order[position] as int],
    decreases position,
{
    let node = order[position] as int;
    if !placed[node] {
        assert(!g.is_ready(placed, node));
        let m = choose|m: int|
            0 <= m < g.nodes[node].inputs.len() && !({
                &&& (#[trigger] g.nodes[node].inputs[m]) < g.nodes.len()
                &&& placed[g.nodes[node].inputs[m] as int]
            });
        let input = g.nodes[node].inputs[m];
        assert(comes_before(order, position, input));
        let q = choose|q: int| 0 <= q < position && q < order.len() && #[trigger] order[q] == input;
        assert(order[q] < g.nodes.len());
        lemma_waiting_node_has_no_place(g, placed, order, q);
    }
}

impl UnrolledGraphView {
    /// Node `walk[k + 1]` is an input of node `walk[k]`.
    pub open spec fn is_step(self, walk: Seq<usize>, k: int) -> bool {
        self.nodes[walk[k] as int].inputs.contains(walk[k + 1])
    }

    /// `walk` goes along the inputs: it starts at some node of the graph,
    /// and each of its further nodes is an input of the node before it.
    pub open spec fn is_walk(self, walk: Seq<usize>) -> bool {
        &&& walk.len() >= 1
        &&& forall|k: int| 0 <= k < walk.len() ==> (#[trigger] walk[k]) < self.nodes.len()
        &&& forall|k: int| 0 <= k < walk.len() - 1 ==> #[trigger] self.is_step(walk, k)
    }
}

impl UnrolledGraphView {
    /// Every input of every node is a node of the graph.
    pub open spec fn inputs_are_nodes(self) -> bool {
        forall|i: int, m: int|
            0 <= i < self.nodes.len() && 0 <= m < self.nodes[i].inputs.len()
                ==> #[trigger] self.nodes[i].inputs[m] < self.nodes.len()
    }

    /// `walk` is a circle: a walk along the inputs, of more than one node,
    /// that ends at the node where it began.
    pub open spec fn is_circle(self, walk: Seq<usize>) -> bool {
        &&& self.is_walk(walk)
        &&& walk.len() >= 2
        &&& walk.first() == walk.last()
    }

    /// Some walk along the inputs comes back to the node where it began.
    pub open spec fn has_circle(self) -> bool {
        exists|walk: Seq<usize>| self.is_circle(walk)
    }
}

/// Along a walk the places in an order of evaluation go down: node `k` of
/// the walk has a place in the order that lies before the place `start` of
/// the first node of the walk, or is that place for the first node itself.
proof fn lemma_walk_goes_down(
    g: UnrolledGraphView,
    order: Seq<usize>,
    walk: Seq<usize>,
    start: int,
    k: int,
) -> (place: int)
    requires
        g.is_evaluation_order(order),
        g.is_walk(walk),
        0 <= start < order.len(),
        order[start] == walk[0],
        0 <= k < walk.len(),
    ensures
        0 <= place <= start,
        order[place] == walk[k],
        k > 0 ==> place < start,
    decreases k,
{
    if k == 0 {
        start
    } else {
        let before = lemma_walk_goes_down(g, order, walk, start, k - 1);
        assert(g.is_step(walk, k - 1));
        let inputs = g.nodes[walk[k - 1] as int].inputs;
        let m = choose|m: int| 0 <= m < inputs.len() && inputs[m] == walk[k];
        assert(comes_before(order, before, g.nodes[order[before] as int].inputs[m]));
        let place = choose|q: int| 0 <= q < before && q < order.len() && #[trigger] order[q] == walk[k];
        place
    }
}

/// A graph in which a walk along the inputs comes back to the node it
/// started from has no order of evaluation: in an order of evaluation, a
/// walk of more than one node never ends where it began.
pub proof fn lemma_no_walk_comes_back(g: UnrolledGraphView, order: Seq<usize>, walk: Seq<usize>)
    requires
        g.is_evaluation_order(order),
        g.is_walk(walk),
        walk.len() >= 2,
    ensures
        walk.first() != walk.last(),
{
    lemma_distinct_nodes(order, g.nodes.len());
    assert(lists(order, walk[0] as int));
    let start = choose|p: int| 0 <= p < order.len() && #[trigger] order[p] == walk[0] as int;
    let place = lemma_walk_goes_down(g, order, walk, start, walk.len() - 1);
    assert(order[place] != order[start]);
}

/// Where every node that `placed` leaves out waits for an input that is
/// left out too, a walk of any length starts at each node that is left
/// out and stays among such nodes.
proof fn lemma_waiting_walk(g: UnrolledGraphView, placed: Seq<bool>, node: usize, length: nat) -> (walk:
    Seq<usize>)
    requires
        placed.len() == g.nodes.len(),
        g.inputs_are_nodes(),
        forall|j: int| 0 <= j < g.nodes.len() && !(#[trigger] placed[j]) ==> !g.is_ready(placed, j),
        node < g.nodes.len(),
        !placed[node as int],
        length >= 1,
    ensures
        g.is_walk(walk),
        walk.len() == length,
        walk[0] == node,
    decreases length,
{
    if length == 1 {
        seq![node]
    } else {
        assert(!g.is_ready(placed, node as int));
        let m = choose|m: int|
            0 <= m < g.nodes[node as int].inputs.len() && !({
                &&& (#[trigger] g.nodes[node as int].inputs[m]) < g.nodes.len()
                &&& placed[g.nodes[node as int].inputs[m] as int]
            });
        let next = g.nodes[node as int].inputs[m];
        let rest = lemma_waiting_walk(g, placed, next, (length - 1) as nat);
        let walk = seq![node] + rest;
        assert forall|k: int| 0 <= k < walk.len() - 1 implies #[trigger] g.is_step(walk, k) by {
            if k == 0 {
                assert(walk[1] == rest[0]);
                assert(g.nodes[node as int].inputs[m] == walk[1]);
            } else {
                assert(g.is_step(rest, k - 1));
                assert(walk[k] == rest[k - 1]);
                assert(walk[k + 1] == rest[k]);
            }
        }
        assert forall|k: int| 0 <= k < walk.len() implies (#[trigger] walk[k]) < g.nodes.len() by {
            if k > 0 {
                assert(walk[k] == rest[k - 1]);
            }
        }
        walk
    }
}

/// A walk with more nodes than the graph has passes some node twice, and
/// the part of the walk between the two is a circle.
proof fn lemma_long_walk_holds_circle(g: UnrolledGraphView, walk: Seq<usize>) -> (circle: Seq<usize>)
    requires
        g.is_walk(walk),
        walk.len() > g.nodes.len(),
    ensures
        g.is_circle(circle),
{
    if lists_distinct_nodes(walk, g.nodes.len()) {
        lemma_distinct_nodes(walk, g.nodes.len());
    }
    assert(!lists_distinct_nodes(walk, g.nodes.len()));
    let (p, q) = choose|p: int, q: int|
        0 <= p < q < walk.len() && #[trigger] walk[p] == #[trigger] walk[q];
    let circle = walk.subrange(p, q + 1);
    assert forall|k: int| 0 <= k < circle.len() - 1 implies #[trigger] g.is_step(circle, k) by {
        assert(g.is_step(walk, p + k));
        assert(circle[k] == walk[p + k]);
        assert(circle[k + 1] == walk[p + k + 1]);
    }
    assert forall|k: int| 0 <= k < circle.len() implies (#[trigger] circle[k]) < g.nodes.len() by {
        assert(circle[k] == walk[p + k]);
    }
    circle
}

/// State of the search for an order: `order` holds the nodes that `placed`
/// marks, each once and after all of its inputs.
spec fn is_partial_order(g: UnrolledGraphView, order: Seq<usize>, placed: Seq<bool>) -> bool {
    &&& placed.len() == g.nodes.len()
    &&& lists_distinct_nodes(order, g.nodes.len())
    &&& g.inputs_come_first(order)
    &&& forall|p: int| 0 <= p < order.len() ==> placed[(#[trigger] order[p]) as int]
    &&& forall|i: int|
        0 <= i < placed.len() && #[trigger] placed[i] ==> exists|p: int|
            0 <= p < order.len() && #[trigger] order[p] == i
}

impl UnrolledGraph {
    /// Tells whether all inputs of node `i` are nodes that `placed` marks.
    fn inputs_placed(&self, i: usize, placed: &Vec<bool>) -> (ready: bool)
        requires
            i < self.nodes@.len(),
            placed@.len() == self.nodes@.len(),
        ensures
            ready == self@.is_ready(placed@, i as int),
    {
        let inputs = &self.nodes[i].input_node_indices;
        assert(self@.nodes[i as int].inputs == inputs@);
        let mut m: usize = 0;
        while m < inputs.len()
            invariant
                m <= inputs.len(),
                placed@.len() == self.nodes@.len(),
                self@.nodes[i as int].inputs == inputs@,
                forall|k: int|
                    0 <= k < m ==> {
                        &&& (#[trigger] inputs@[k]) < self.nodes@.len()
                        &&& placed@[inputs@[k] as int]
                    },
            decreases inputs.len() - m,
        {
            let input = inputs[m];
            if input >= self.nodes.len() || !placed[input] {
                assert(!({
                    &&& self@.nodes[i as int].inputs[m as int] < self@.nodes.len()
                    &&& placed@[self@.nodes[i as int].inputs[m as int] as int]
                }));
                return false;
            }
            m += 1;
        }
        true
    }

    /// An order in which the nodes can be evaluated, each after all of its
    /// inputs, if there is one. There is none where an input is no node of
    /// the graph, and none where a walk along the inputs comes back to the
    /// node where it began; in every other graph there is one.
    pub fn evaluation_order(&self) -> (order: Option<Vec<usize>>)
        ensures
            match order {
                Some(order) => self@.is_evaluation_order(order@),
                None => {
                    &&& forall|any: Seq<usize>| !self@.is_evaluation_order(any)
                    &&& !self@.inputs_are_nodes() || self@.has_circle()
                },
            },
    {
        let count = self.nodes.len();
        let mut placed: Vec<bool> = Vec::new();
        let mut i: usize = 0;
        while i < count
            invariant
                i <= count,
                placed@.len() == i,
                forall|j: int| 0 <= j < i ==> !(#[trigger] placed@[j]),
            decreases count - i,
        {
            placed.push(false);
            i += 1;
        }
        let mut order: Vec<usize> = Vec::new();
        proof {
            lemma_distinct_nodes(order@, count as nat);
        }
        while order.len() < count
            invariant
                count == self.nodes@.len(),
                order@.len() <= count,
                is_partial_order(self@, order@, placed@),
            decreases count - order.len(),
        {
            let length_before = order.len();
            let ghost placed_before = placed@;
            let mut node: usize = 0;
            while node < count
                invariant
                    count == self.nodes@.len(),
                    node <= count,
                    length_before <= order@.len() <= count,
                    is_partial_order(self@, order@, placed@),
                    order@.len() == length_before ==> placed@ == placed_before,
                    order@.len() == length_before ==> forall|j: int|
                        0 <= j < node && !(#[trigger] placed@[j]) ==> !self@.is_ready(placed@, j),
                decreases count - node,
            {
                if !placed[node] && self.inputs_placed(node, &placed) {
                    let ghost held = order@;
                    let ghost marks = placed@;
                    placed[node] = true;
                    order.push(node);
                    proof {
                        let g = self@;
                        assert forall|p: int, q: int| 0 <= p < q < order@.len() implies #[trigger] order@[p]
                            != #[trigger] order@[q] by {
                            if q == held.len() {
                                assert(marks[held[p] as int]);
                            }
                        }
                        assert forall|p: int, m: int|
                            0 <= p < order@.len() && 0 <= m < g.nodes[order@[p] as int].inputs.len()
                                implies comes_before(
                            order@,
                            p,
                            #[trigger] g.nodes[order@[p] as int].inputs[m],
                        ) by {
                            let input = g.nodes[order@[p] as int].inputs[m];
                            if p < held.len() {
                                assert(comes_before(held, p, g.nodes[held[p] as int].inputs[m]));
                                let q = choose|q: int|
                                    0 <= q < p && q < held.len() && #[trigger] held[q] == input;
                                assert(order@[q] == input);
                            } else {
                                assert(marks[input as int]);
                                let q = choose|q: int|
                                    0 <= q < held.len() && #[trigger] held[q] == input;
                                assert(order@[q] == input);
                            }
                        }
                        assert forall|j: int| 0 <= j < placed@.len() && #[trigger] placed@[j] implies exists|
                            p: int,
                        |
                            0 <= p < order@.len() && #[trigger] order@[p] == j by {
                            if j == node {
                                assert(order@[held.len() as int] == node);
                            } else {
                                assert(marks[j]);
                                let p = choose|p: int| 0 <= p < held.len() && #[trigger] held[p] == j;
                                assert(order@[p] == j);
                            }
                        }
                        assert forall|p: int| 0 <= p < order@.len() implies placed@[(
                        #[trigger] order@[p]) as int] by {
                            if p < held.len() {
                                assert(marks[held[p] as int]);
                            }
                        }
                        lemma_distinct_nodes(order@, count as nat);
                    }
                }
                node += 1;
            }
            if order.len() == length_before {
                proof {
                    let g = self@;
                    assert forall|any: Seq<usize>| !g.is_evaluation_order(any) by {
                        if g.is_evaluation_order(any) {
                            if forall|i: int| 0 <= i < count ==> #[trigger] placed@[i] {
                                assert forall|i: int| 0 <= i < count implies #[trigger] lists(
                                    order@,
                                    i,
                                ) by {
                                    assert(placed@[i]);
                                }
                                lemma_distinct_nodes(order@, count as nat);
                            } else {
                                let waiting = choose|i: int| 0 <= i < count && !(#[trigger] placed@[i]);
                                lemma_distinct_nodes(any, count as nat);
                                assert(lists(any, waiting));
                                let position = choose|p: int|
                                    0 <= p < any.len() && #[trigger] any[p] == waiting;
                                lemma_waiting_node_has_no_place(g, placed@, any, position);
                            }
                        }
                    }
                    if g.inputs_are_nodes() {
                        if forall|i: int| 0 <= i < count ==> #[trigger] placed@[i] {
                            assert forall|i: int| 0 <= i < count implies #[trigger] lists(
                                order@,
                                i,
                            ) by {
                                assert(placed@[i]);
                            }
                            lemma_distinct_nodes(order@, count as nat);
                        } else {
                            let waiting = choose|i: int| 0 <= i < count && !(#[trigger] placed@[i]);
                            let walk = lemma_waiting_walk(
                                g,
                                placed@,
                                waiting as usize,
                                (count + 1) as nat,
                            );
                            let circle = lemma_long_walk_holds_circle(g, walk);
                        }
                    }
                }
                return None;
            }
        }
        Some(order)
    }
}

/// The counterpart, in another unrolled form of the same algorithm, of
/// node `i`: the node that stands for the same operator at the same level.
spec fn counterpart(g: UnrolledGraphView, other: UnrolledGraphView, i: int) -> int {
    choose|j: int| 0 <= j < other.nodes.len() && other.nodes[j].key() == g.nodes[i].key()
}

/// Every node of one unrolled form of an algorithm has its counterpart in
/// every other.
proof fn lemma_counterpart_exists(
    a: AlgorithmView,
    g: UnrolledGraphView,
    other: UnrolledGraphView,
    i: int,
)
    requires
        g.unrolls(a),
        other.unrolls(a),
        0 <= i < g.nodes.len(),
    ensures
        0 <= counterpart(g, other, i) < other.nodes.len(),
        other.nodes[counterpart(g, other, i)].key() == g.nodes[i].key(),
{
    let j = lemma_counterpart(a, g, other, i);
}

/// Whether the nodes can be put in an order of evaluation depends on the
/// algorithm alone: where one unrolled form of an algorithm has such an
/// order, every other has one.
pub proof fn lemma_evaluation_order_carries_over(
    a: AlgorithmView,
    g: UnrolledGraphView,
    order: Seq<usize>,
    other: UnrolledGraphView,
) -> (carried: Seq<usize>)
    requires
        g.unrolls(a),
        other.unrolls(a),
        g.is_evaluation_order(order),
    ensures
        other.is_evaluation_order(carried),
{
    lemma_unrolling_is_unique(a, g, other);
    let carried = Seq::new(order.len(), |p: int| counterpart(g, other, order[p] as int) as usize);
    assert(other.nodes.len() <= usize::MAX + 1) by {
        if order.len() > 0 {
            lemma_distinct_nodes(order, g.nodes.len());
            assert(lists(order, order.len() - 1));
        }
    }
    assert forall|p: int| 0 <= p < carried.len() implies (#[trigger] carried[p])
        < other.nodes.len() by {
        assert(order[p] < g.nodes.len());
        lemma_counterpart_exists(a, g, other, order[p] as int);
    }
    assert forall|p: int, q: int| 0 <= p < q < carried.len() implies #[trigger] carried[p]
        != #[trigger] carried[q] by {
        assert(order[p] != order[q]);
        assert(order[p] < g.nodes.len() && order[q] < g.nodes.len());
        lemma_counterpart_exists(a, g, other, order[p] as int);
        lemma_counterpart_exists(a, g, other, order[q] as int);
        if order[p] < order[q] {
            assert(g.nodes[order[p] as int].key() != g.nodes[order[q] as int].key());
        } else {
            assert(g.nodes[order[q] as int].key() != g.nodes[order[p] as int].key());
        }
    }
    assert forall|p: int, m: int|
        0 <= p < carried.len() && 0 <= m < other.nodes[carried[p] as int].inputs.len()
            implies comes_before(carried, p, #[trigger] other.nodes[carried[p] as int].inputs[m]) by {
        let here = order[p] as int;
        let there = carried[p] as int;
        assert(order[p] < g.nodes.len());
        lemma_counterpart_exists(a, g, other, here);
        let wanted = a.input_keys(g.nodes[here].key());
        assert(inputs_match(a, g.nodes, here));
        assert(inputs_match(a, other.nodes, there));
        assert(0 <= m < wanted.len());
        let input_here = g.nodes[here].inputs[m];
        let input_there = other.nodes[there].inputs[m];
        assert(g.nodes[input_here as int].key() == wanted[m]);
        assert(other.nodes[input_there as int].key() == wanted[m]);
        assert(comes_before(order, p, input_here));
        let q = choose|q: int| 0 <= q < p && q < order.len() && #[trigger] order[q] == input_here;
        lemma_counterpart_exists(a, g, other, input_here as int);
        let twin = carried[q] as int;
        assert(other.nodes[twin].key() == other.nodes[input_there as int].key());
        if twin < input_there {
            assert(other.nodes[twin].key() != other.nodes[input_there as int].key());
        } else if input_there < twin {
            assert(other.nodes[input_there as int].key() != other.nodes[twin].key());
        }
        assert(carried[q] == input_there);
    }
    carried
}

/// Why a buffer cannot be produced from an algorithm.
#[derive(Debug, Clone, Copy, PartialEq, Eq, Structural)]
pub enum InternalGraphError {
    /// The matrix speaks of another number of operators than there are.
    OperatorCountMismatch { matrix_size: usize, num_operators: usize },
    /// The matrix is not square or a carrier names no operator.
    InvalidAlgorithm,
    /// Connections run in a circle, so that no node of the circle can be
    /// evaluated before the others. Such a circle is made of direct
    /// connections, since a feedback connection leads to a lower level.
    CircularConnection,
}

/// What the evaluation of an algorithm needs: its unrolled form and an
/// order in which to evaluate the nodes.
#[derive(Debug)]
pub struct EvaluationPlan {
    pub graph: UnrolledGraph,
    /// The indices of all nodes, each after the inputs of its node.
    pub order: Vec<usize>,
}

impl EvaluationPlan {
    /// The plan evaluates the algorithm `a`: its graph is the unrolled form
    /// of `a`, with every index in range, and its order is an order of
    /// evaluation of that graph.
    pub open spec fn evaluates(&self, a: AlgorithmView) -> bool {
        &&& self.graph@.unrolls(a)
        &&& self.graph@.well_formed(a.num_operators())
        &&& self.graph@.is_evaluation_order(self.order@)
    }
}

impl AlgorithmView {
    /// Some unrolled form of the algorithm holds a circle: a walk along the
    /// inputs that comes back to the node where it began.
    pub open spec fn runs_in_circle(self) -> bool {
        exists|g: UnrolledGraphView| #[trigger] g.unrolls(self) && g.has_circle()
    }

    /// The unrolled forms of the algorithm have an order of evaluation.
    pub open spec fn can_be_evaluated(self) -> bool {
        forall|g: UnrolledGraphView|
            #[trigger] g.unrolls(self) ==> exists|order: Seq<usize>| g.is_evaluation_order(order)
    }
}

impl Algorithm {
    /// Decides what a buffer of `buffer_size` samples asks for, with
    /// `num_operators` operators at hand.
    ///
    /// A matrix that speaks of another number of operators is an error,
    /// unless there are no operators at all. With an empty buffer or without
    /// operators there is nothing to evaluate. Otherwise the plan of the
    /// evaluation is returned, or an error if the algorithm breaks its
    /// invariant or cannot be evaluated. The caller leaves the buffer silent
    /// unless it gets a plan.
    pub fn prepare(&self, num_operators: usize, buffer_size: usize) -> (plan: Result<
        Option<EvaluationPlan>,
        InternalGraphError,
    >)
        ensures
            match plan {
                Ok(Some(plan)) => {
                    &&& buffer_size > 0
                    &&& num_operators > 0
                    &&& self@.num_operators() == num_operators
                    &&& self@.well_formed()
                    &&& self@.can_be_evaluated()
                    &&& plan.evaluates(self@)
                },
                Ok(None) => {
                    &&& buffer_size == 0 || num_operators == 0
                    &&& num_operators == 0 || self@.num_operators() == num_operators
                },
                Err(InternalGraphError::OperatorCountMismatch { matrix_size, num_operators: count }) => {
                    &&& num_operators > 0
                    &&& self@.num_operators() != num_operators
                    &&& matrix_size == self@.num_operators()
                    &&& count == num_operators
                },
                Err(InternalGraphError::InvalidAlgorithm) => {
                    &&& buffer_size > 0
                    &&& num_operators > 0
                    &&& self@.num_operators() == num_operators
                    &&& !self@.well_formed()
                },
                Err(InternalGraphError::CircularConnection) => {
                    &&& buffer_size > 0
                    &&& num_operators > 0
                    &&& self@.num_operators() == num_operators
                    &&& self@.well_formed()
                    &&& !self@.can_be_evaluated()
                    &&& self@.runs_in_circle()
                },
            },
    {
        let matrix_size = self.matrix.len();
        if num_operators > 0 && matrix_size != num_operators {
            return Err(InternalGraphError::OperatorCountMismatch { matrix_size, num_operators });
        }
        if buffer_size == 0 || num_operators == 0 {
            return Ok(None);
        }
        if !self.is_well_formed() {
            return Err(InternalGraphError::InvalidAlgorithm);
        }
        let graph = self.unroll();
        match graph.evaluation_order() {
            Some(order) => {
                proof {
                    let a = self@;
                    assert forall|g: UnrolledGraphView| #[trigger] g.unrolls(a) implies exists|
                        any: Seq<usize>,
                    |
                        g.is_evaluation_order(any) by {
                        let carried = lemma_evaluation_order_carries_over(a, graph@, order@, g);
                    }
                }
                Ok(Some(EvaluationPlan { graph, order }))
            },
            None => {
                assert(graph@.unrolls(self@));
                assert(graph@.inputs_are_nodes());
                assert(graph@.has_circle());
                Err(InternalGraphError::CircularConnection)
            },
        }
    }
}

} // verus!
