//! Unrolling of an algorithm into a structure without feedback.
//!
//! A feedback connection cannot be evaluated in place, so the modulation
//! graph is unrolled: every operator is taken at a level, the carriers at the
//! highest one. A direct connection leads to its source at level zero; a
//! feedback connection leads to its source one level further down and is
//! dropped at level zero. One node stands for each pair of operator and level
//! that is reached from a carrier, however often it is reached.

use crate::algorithm::{Algorithm, AlgorithmView, NodeKey};
use vstd::prelude::*;
use vstd::set_lib::{lemma_int_range, lemma_len_subset, set_int_range};

verus! {

/// An operator at one level of unrolling, with the nodes that modulate it.
#[derive(Debug)]
pub struct UnrolledNode {
    /// Index of the operator that the node evaluates.
    pub operator_index: usize,
    /// Level of unrolling at which the operator is taken.
    pub level: usize,
    /// Indices, in the node list, of the nodes that modulate this one, in
    /// the order of their operators.
    pub input_node_indices: Vec<usize>,
}

/// Mathematical content of an [`UnrolledNode`].
pub struct UnrolledNodeView {
    pub operator: int,
    pub level: int,
    pub inputs: Seq<usize>,
}

impl UnrolledNodeView {
    /// The pair of operator and level that the node stands for.
    pub open spec fn key(self) -> NodeKey {
        NodeKey { operator: self.operator, level: self.level }
    }
}

impl View for UnrolledNode {
    type V = UnrolledNodeView;

    open spec fn view(&self) -> UnrolledNodeView {
        UnrolledNodeView {
            operator: self.operator_index as int,
            level: self.level as int,
            inputs: self.input_node_indices@,
        }
    }
}

/// The unrolled form of an algorithm: its nodes, and for each carrier the
/// node that produces its sound.
#[derive(Debug)]
pub struct UnrolledGraph {
    pub nodes: Vec<UnrolledNode>,
    /// For each carrier of the algorithm, in order, the index of its node.
    pub carrier_node_indices: Vec<usize>,
}

/// Mathematical content of an [`UnrolledGraph`].
pub struct UnrolledGraphView {
    pub nodes: Seq<UnrolledNodeView>,
    pub carrier_nodes: Seq<usize>,
}

/// The views of a list of nodes.
pub open spec fn node_views(nodes: Seq<UnrolledNode>) -> Seq<UnrolledNodeView> {
    Seq::new(nodes.len(), |i: int| nodes[i]@)
}

impl View for UnrolledGraph {
    type V = UnrolledGraphView;

    open spec fn view(&self) -> UnrolledGraphView {
        UnrolledGraphView {
            nodes: node_views(self.nodes@),
            carrier_nodes: self.carrier_node_indices@,
        }
    }
}

impl AlgorithmView {
    /// `key` names an operator of the algorithm at a level up to the highest.
    pub open spec fn has_key(self, key: NodeKey) -> bool {
        0 <= key.operator < self.matrix.len() && 0 <= key.level <= self.max_level()
    }

    /// The node that modulates the node `key` through the connection from
    /// operator `source`, if there is one: the source at level zero for a
    /// direct connection, one level down for a feedback connection above
    /// level zero, and none otherwise.
    pub open spec fn input_key(self, key: NodeKey, source: int) -> Option<NodeKey> {
        match self.matrix[key.operator][source] {
            Some(n) => if n == 1 {
                Some(NodeKey { operator: source, level: 0 })
            } else if n > 1 && key.level > 0 {
                Some(NodeKey { operator: source, level: key.level - 1 })
            } else {
                None
            },
            None => None,
        }
    }

    /// The nodes that modulate the node `key` through the connections from
    /// the operators below `upto`, in the order of those operators.
    pub open spec fn input_keys_upto(self, key: NodeKey, upto: int) -> Seq<NodeKey>
        decreases upto,
    {
        if upto <= 0 {
            Seq::empty()
        } else {
            let before = self.input_keys_upto(key, upto - 1);
            match self.input_key(key, upto - 1) {
                Some(input) => before.push(input),
                None => before,
            }
        }
    }

    /// The nodes that modulate the node `key`, in the order of their
    /// operators.
    pub open spec fn input_keys(self, key: NodeKey) -> Seq<NodeKey> {
        self.input_keys_upto(key, self.matrix.len() as int)
    }

    /// `key` is the node of some carrier.
    pub open spec fn is_carrier_key(self, key: NodeKey) -> bool {
        key.level == self.max_level() && exists|k: int|
            0 <= k < self.carriers.len() && #[trigger] self.carriers[k] == key.operator
    }

    /// The nodes of the carriers, in the order of the carrier list: each
    /// carrier at the highest level.
    pub open spec fn carrier_keys(self) -> Seq<NodeKey> {
        Seq::new(
            self.carriers.len(),
            |k: int| NodeKey { operator: self.carriers[k] as int, level: self.max_level() as int },
        )
    }

    /// Number of pairs of an operator and a level.
    pub open spec fn key_count(self) -> nat {
        self.num_operators() * (self.max_level() + 1)
    }

    /// The nodes in the order in which a walk finds them that has found
    /// `found` already and has `pending` still to look at, first to last.
    /// A pending node that was found before is passed over; a new one is
    /// found, and its inputs are looked at before the rest. The walk ends
    /// when nothing is pending, or when there are as many nodes as pairs of
    /// an operator and a level, so that nothing new can be found.
    pub open spec fn discovered(self, found: Seq<NodeKey>, pending: Seq<NodeKey>) -> Seq<NodeKey>
        decreases self.key_count() - found.len(), pending.len(),
    {
        if pending.len() == 0 || found.len() >= self.key_count() {
            found
        } else if found.contains(pending[0]) {
            self.discovered(found, pending.drop_first())
        } else {
            self.discovered(
                found.push(pending[0]),
                self.input_keys(pending[0]) + pending.drop_first(),
            )
        }
    }

    /// The nodes of the unrolled algorithm in the order in which they are
    /// found: by a walk that starts at the carriers, in the order of the
    /// carrier list, and goes on to the inputs of each node it finds before
    /// it turns to anything else.
    pub open spec fn discovery_order(self) -> Seq<NodeKey> {
        self.discovered(Seq::empty(), self.carrier_keys())
    }
}

/// The pairs of operator and level that a list of nodes stands for.
pub open spec fn keys_of(nodes: Seq<UnrolledNodeView>) -> Seq<NodeKey> {
    Seq::new(nodes.len(), |i: int| nodes[i].key())
}

/// Every node stands for an operator of the algorithm at a level up to the
/// highest.
pub open spec fn keys_valid(a: AlgorithmView, nodes: Seq<UnrolledNodeView>) -> bool {
    forall|i: int| 0 <= i < nodes.len() ==> a.has_key(#[trigger] nodes[i].key())
}

/// No two nodes stand for the same operator at the same level.
pub open spec fn keys_distinct(nodes: Seq<UnrolledNodeView>) -> bool {
    forall|i: int, j: int|
        0 <= i < j < nodes.len() ==> #[trigger] nodes[i].key() != #[trigger] nodes[j].key()
}

/// The inputs of node `i` are the nodes that the algorithm asks for, in
/// order.
pub open spec fn inputs_match(a: AlgorithmView, nodes: Seq<UnrolledNodeView>, i: int) -> bool {
    let wanted = a.input_keys(nodes[i].key());
    &&& nodes[i].inputs.len() == wanted.len()
    &&& forall|m: int|
        #![trigger nodes[i].inputs[m]]
        #![trigger wanted[m]]
        0 <= m < wanted.len() ==> {
            &&& nodes[i].inputs[m] < nodes.len()
            &&& nodes[nodes[i].inputs[m] as int].key() == wanted[m]
        }
}

/// `key` modulates one of the first `before` nodes.
pub open spec fn key_follows(
    a: AlgorithmView,
    nodes: Seq<UnrolledNodeView>,
    before: int,
    key: NodeKey,
) -> bool {
    exists|j: int, m: int|
        0 <= j < before && j < nodes.len() && 0 <= m < a.input_keys(nodes[j].key()).len()
            && #[trigger] a.input_keys(nodes[j].key())[m] == key
}

/// `key` is wanted: it is the node of a carrier, or it modulates one of the
/// first `before` nodes.
pub open spec fn key_wanted(
    a: AlgorithmView,
    nodes: Seq<UnrolledNodeView>,
    before: int,
    key: NodeKey,
) -> bool {
    a.is_carrier_key(key) || key_follows(a, nodes, before, key)
}

/// Every node is the node of a carrier or modulates a node that stands
/// before it in the list.
pub open spec fn keys_wanted(a: AlgorithmView, nodes: Seq<UnrolledNodeView>) -> bool {
    forall|i: int| 0 <= i < nodes.len() ==> key_wanted(a, nodes, i, #[trigger] nodes[i].key())
}

impl UnrolledGraphView {
    /// Every index in the graph is in range: the operator of each node for
    /// `num_operators` operators, the inputs and the carrier nodes for the
    /// node list.
    pub open spec fn well_formed(self, num_operators: nat) -> bool {
        &&& forall|i: int|
            0 <= i < self.nodes.len() ==> 0 <= (#[trigger] self.nodes[i]).operator < num_operators
        &&& forall|i: int, m: int|
            0 <= i < self.nodes.len() && 0 <= m < self.nodes[i].inputs.len()
                ==> #[trigger] self.nodes[i].inputs[m] < self.nodes.len()
        &&& forall|k: int|
            0 <= k < self.carrier_nodes.len() ==> #[trigger] self.carrier_nodes[k]
                < self.nodes.len()
    }

    /// The graph is an unrolled form of the algorithm `a`.
    ///
    /// Its nodes stand for distinct pairs of operator and level, each one
    /// the node of a carrier or an input of an earlier node; the inputs of
    /// each node are the nodes that the algorithm asks for; and the carrier
    /// nodes are the carriers at the highest level, in the order of the
    /// carrier list. This fixes the graph up to the numbering of its nodes.
    pub open spec fn unrolls(self, a: AlgorithmView) -> bool {
        &&& keys_valid(a, self.nodes)
        &&& keys_distinct(self.nodes)
        &&& keys_wanted(a, self.nodes)
        &&& forall|i: int| 0 <= i < self.nodes.len() ==> inputs_match(a, self.nodes, i)
        &&& self.carrier_nodes.len() == a.carriers.len()
        &&& forall|k: int|
            0 <= k < self.carrier_nodes.len() ==> {
                &&& (#[trigger] self.carrier_nodes[k]) < self.nodes.len()
                &&& self.nodes[self.carrier_nodes[k] as int].key() == NodeKey {
                    operator: a.carriers[k] as int,
                    level: a.max_level() as int,
                }
            }
    }
}

/// Two pairs of an operator and a level below `width` that differ have
/// different codes `operator * width + level`.
proof fn lemma_code_injective(o1: int, l1: int, o2: int, l2: int, width: int)
    requires
        0 <= l1 < width,
        0 <= l2 < width,
        o1 * width + l1 == o2 * width + l2,
    ensures
        o1 == o2,
        l1 == l2,
{
    assert((o1 - o2) * width == l2 - l1) by (nonlinear_arith)
        requires
            o1 * width + l1 == o2 * width + l2,
    ;
    if o1 > o2 {
        assert((o1 - o2) * width >= width) by (nonlinear_arith)
            requires
                o1 - o2 >= 1,
                width > 0,
        ;
    } else if o1 < o2 {
        assert((o1 - o2) * width <= -width) by (nonlinear_arith)
            requires
                o1 - o2 <= -1,
                width > 0,
        ;
    }
}

/// A list of nodes that stand for distinct pairs of operator and level holds
/// at most as many nodes as there are such pairs: the number of operators
/// times the number of levels.
pub proof fn lemma_distinct_keys_bounded(a: AlgorithmView, nodes: Seq<UnrolledNodeView>)
    requires
        keys_valid(a, nodes),
        keys_distinct(nodes),
    ensures
        nodes.len() <= a.num_operators() * (a.max_level() + 1),
{
    let width: int = a.max_level() as int + 1;
    let count: int = a.num_operators() as int;
    let codes = Seq::new(nodes.len(), |i: int| nodes[i].operator * width + nodes[i].level);
    assert forall|i: int, j: int|
        0 <= i < codes.len() && 0 <= j < codes.len() && i != j implies codes[i] != codes[j] by {
        assert(a.has_key(nodes[i].key()) && a.has_key(nodes[j].key()));
        if i < j {
            assert(nodes[i].key() != nodes[j].key());
        } else {
            assert(nodes[j].key() != nodes[i].key());
        }
        if codes[i] == codes[j] {
            lemma_code_injective(
                nodes[i].operator,
                nodes[i].level,
                nodes[j].operator,
                nodes[j].level,
                width,
            );
        }
    }
    codes.unique_seq_to_set();
    assert(0 <= count * width) by (nonlinear_arith)
        requires
            0 <= count,
            0 <= width,
    ;
    lemma_int_range(0, count * width);
    assert forall|c: int| codes.to_set().contains(c) implies set_int_range(
        0,
        count * width,
    ).contains(c) by {
        let i = choose|i: int| 0 <= i < codes.len() && codes[i] == c;
        assert(a.has_key(nodes[i].key()));
        let o = nodes[i].operator;
        let l = nodes[i].level;
        assert(0 <= o * width + l < count * width) by (nonlinear_arith)
            requires
                0 <= o < count,
                0 <= l < width,
        ;
    }
    lemma_len_subset(codes.to_set(), set_int_range(0, count * width));
}

/// The inputs that the algorithm asks for up to a source are the first of
/// those that it asks for up to a later source.
proof fn lemma_input_keys_prefix(a: AlgorithmView, key: NodeKey, upto: int, later: int)
    requires
        0 <= upto <= later,
    ensures
        a.input_keys_upto(key, upto).len() <= a.input_keys_upto(key, later).len(),
        forall|m: int|
            0 <= m < a.input_keys_upto(key, upto).len() ==> a.input_keys_upto(key, upto)[m]
                == #[trigger] a.input_keys_upto(key, later)[m],
    decreases later - upto,
{
    if upto < later {
        lemma_input_keys_prefix(a, key, upto, later - 1);
    }
}

/// State of a node list while the graph is being built: the nodes in `open`
/// still wait for their inputs, all others are complete.
spec fn under_construction(a: AlgorithmView, nodes: Seq<UnrolledNodeView>, open: Set<int>) -> bool {
    &&& keys_valid(a, nodes)
    &&& keys_distinct(nodes)
    &&& keys_wanted(a, nodes)
    &&& forall|i: int| 0 <= i < nodes.len() && !open.contains(i) ==> inputs_match(a, nodes, i)
}

/// Index of the node that stands for `operator` at `level`, if the list
/// holds one.
fn find_node(nodes: &Vec<UnrolledNode>, operator: usize, level: usize) -> (found: Option<usize>)
    ensures
        match found {
            Some(index) => index < nodes.len() && nodes@[index as int]@.key() == (NodeKey {
                operator: operator as int,
                level: level as int,
            }),
            None => forall|i: int|
                0 <= i < nodes.len() ==> (#[trigger] nodes@[i])@.key() != (NodeKey {
                    operator: operator as int,
                    level: level as int,
                }),
        },
{
    let mut i: usize = 0;
    while i < nodes.len()
        invariant
            i <= nodes.len(),
            forall|j: int|
                0 <= j < i ==> (#[trigger] nodes@[j])@.key() != (NodeKey {
                    operator: operator as int,
                    level: level as int,
                }),
        decreases nodes.len() - i,
    {
        if nodes[i].operator_index == operator && nodes[i].level == level {
            return Some(i);
        }
        i += 1;
    }
    None
}

impl Algorithm {
    /// Index of the node that stands for operator `target_op_idx` at level
    /// `target_level`. The node is created, with all the nodes that modulate
    /// it, unless the list holds it already.
    fn get_or_create_node_index(
        &self,
        target_op_idx: usize,
        target_level: usize,
        final_nodes: &mut Vec<UnrolledNode>,
        Ghost(open): Ghost<Set<int>>,
        Ghost(rest): Ghost<Seq<NodeKey>>,
    ) -> (index: usize)
        requires
            self@.is_square(),
            self@.has_key(NodeKey { operator: target_op_idx as int, level: target_level as int }),
            under_construction(self@, node_views(old(final_nodes)@), open),
            key_wanted(
                self@,
                node_views(old(final_nodes)@),
                old(final_nodes)@.len() as int,
                NodeKey { operator: target_op_idx as int, level: target_level as int },
            ),
        ensures
            under_construction(self@, node_views(final(final_nodes)@), open),
            old(final_nodes)@.len() <= final(final_nodes)@.len(),
            forall|i: int|
                0 <= i < old(final_nodes)@.len() ==> (#[trigger] final(final_nodes)@[i])@ == old(
                    final_nodes,
                )@[i]@,
            index < final(final_nodes)@.len(),
            final(final_nodes)@[index as int]@.key() == (NodeKey {
                operator: target_op_idx as int,
                level: target_level as int,
            }),
            self@.discovered(
                keys_of(node_views(old(final_nodes)@)),
                seq![NodeKey { operator: target_op_idx as int, level: target_level as int }] + rest,
            ) == self@.discovered(keys_of(node_views(final(final_nodes)@)), rest),
        decreases self@.key_count() - old(final_nodes)@.len(),
    {
        let ghost a = self@;
        let ghost key = NodeKey { operator: target_op_idx as int, level: target_level as int };
        let ghost before = node_views(final_nodes@);
        let ghost pending = seq![key] + rest;
        let ghost goal = a.discovered(keys_of(before), pending);
        proof {
            assert(pending[0] == key);
            assert(pending.drop_first() =~= rest);
        }
        if let Some(index) = find_node(final_nodes, target_op_idx, target_level) {
            proof {
                assert(keys_of(before)[index as int] == key);
                assert(keys_of(before).contains(key));
            }
            return index;
        }
        let current_node_idx = final_nodes.len();
        final_nodes.push(
            UnrolledNode {
                operator_index: target_op_idx,
                level: target_level,
                input_node_indices: Vec::new(),
            },
        );
        let ghost busy = open.insert(current_node_idx as int);
        proof {
            let now = node_views(final_nodes@);
            assert forall|i: int| 0 <= i < before.len() implies #[trigger] now[i] == before[i] by {}
            assert(now[current_node_idx as int].key() == key);
            assert(keys_valid(a, now));
            assert(keys_distinct(now));
            assert(keys_wanted(a, now)) by {
                assert forall|i: int| 0 <= i < now.len() implies key_wanted(
                    a,
                    now,
                    i,
                    #[trigger] now[i].key(),
                ) by {
                    lemma_key_wanted_extends(a, before, now, i);
                }
            }
            assert forall|i: int| 0 <= i < now.len() && !busy.contains(i) implies inputs_match(
                a,
                now,
                i,
            ) by {
                lemma_inputs_match_extends(a, before, now, i);
            }
            lemma_distinct_keys_bounded(a, now);
            assert(!keys_of(before).contains(key)) by {
                if keys_of(before).contains(key) {
                    let i = choose|i: int| 0 <= i < keys_of(before).len() && keys_of(before)[i] == key;
                    assert(final_nodes@[i]@.key() == key);
                }
            }
            assert(keys_of(now) =~= keys_of(before).push(key));
            assert(a.input_keys(key).subrange(0, a.input_keys(key).len() as int) =~= a.input_keys(
                key,
            ));
            assert(goal == a.discovered(keys_of(now), a.input_keys(key) + rest));
        }
        let mut input_indices_for_current: Vec<usize> = Vec::new();
        let num_ops = self.matrix.len();
        let mut source_op_idx: usize = 0;
        while source_op_idx < num_ops
            invariant
                a == self@,
                a.is_square(),
                a.has_key(key),
                key == (NodeKey { operator: target_op_idx as int, level: target_level as int }),
                num_ops == self.matrix.len(),
                source_op_idx <= num_ops,
                current_node_idx == old(final_nodes)@.len(),
                current_node_idx < final_nodes@.len(),
                busy == open.insert(current_node_idx as int),
                under_construction(a, node_views(final_nodes@), busy),
                node_views(final_nodes@)[current_node_idx as int].key() == key,
                final_nodes@[current_node_idx as int]@.inputs.len() == 0,
                forall|i: int|
                    0 <= i < old(final_nodes)@.len() ==> (#[trigger] final_nodes@[i])@ == old(
                        final_nodes,
                    )@[i]@,
                input_indices_for_current@.len() == a.input_keys_upto(
                    key,
                    source_op_idx as int,
                ).len(),
                input_indices_for_current@.len() <= a.input_keys(key).len(),
                goal == a.discovered(
                    keys_of(node_views(final_nodes@)),
                    a.input_keys(key).subrange(
                        input_indices_for_current@.len() as int,
                        a.input_keys(key).len() as int,
                    ) + rest,
                ),
                forall|m: int|
                    #![trigger input_indices_for_current@[m]]
                    #![trigger a.input_keys_upto(key, source_op_idx as int)[m]]
                    0 <= m < input_indices_for_current@.len() ==> {
                        &&& input_indices_for_current@[m] < final_nodes@.len()
                        &&& node_views(final_nodes@)[input_indices_for_current@[m] as int].key()
                            == a.input_keys_upto(key, source_op_idx as int)[m]
                    },
            decreases num_ops - source_op_idx,
        {
            assert(a.matrix[target_op_idx as int] == self.matrix@[target_op_idx as int]@);
            assert(a.matrix[target_op_idx as int].len() == num_ops);
            let ghost grown = a.input_keys_upto(key, source_op_idx + 1);
            let ghost so_far = a.input_keys_upto(key, source_op_idx as int);
            let ghost wanted = a.input_keys(key);
            proof {
                lemma_input_keys_prefix(a, key, source_op_idx + 1, num_ops as int);
            }
            if let Some(connection_n) = self.matrix[target_op_idx][source_op_idx] {
                if connection_n == 1 || (connection_n > 1 && target_level > 0) {
                    let source_level_required = if connection_n == 1 {
                        0
                    } else {
                        target_level - 1
                    };
                    let ghost input = NodeKey {
                        operator: source_op_idx as int,
                        level: source_level_required as int,
                    };
                    let ghost held = node_views(final_nodes@);
                    proof {
                        assert(a.input_key(key, source_op_idx as int) == Some(input));
                        assert(grown == so_far.push(input));
                        lemma_input_keys_prefix(a, key, source_op_idx + 1, num_ops as int);
                        assert(a.input_keys(key)[so_far.len() as int] == input);
                        assert(a.input_keys(held[current_node_idx as int].key())[so_far.len() as int]
                            == input);
                        assert(key_follows(a, held, held.len() as int, input));
                        lemma_distinct_keys_bounded(a, held);
                        assert(seq![input] + (wanted.subrange(
                            so_far.len() as int + 1,
                            wanted.len() as int,
                        ) + rest) =~= wanted.subrange(so_far.len() as int, wanted.len() as int)
                            + rest);
                    }
                    let input_node_idx = self.get_or_create_node_index(
                        source_op_idx,
                        source_level_required,
                        final_nodes,
                        Ghost(busy),
                        Ghost(
                            wanted.subrange(so_far.len() as int + 1, wanted.len() as int) + rest,
                        ),
                    );
                    let ghost chosen = input_indices_for_current@;
                    input_indices_for_current.push(input_node_idx);
                    proof {
                        let now = node_views(final_nodes@);
                        assert forall|i: int| 0 <= i < held.len() implies #[trigger] now[i]
                            == held[i] by {
                            assert(final_nodes@[i]@ == held[i]);
                        }
                        assert forall|m: int|
                            #![trigger input_indices_for_current@[m]]
                            #![trigger grown[m]]
                            0 <= m < input_indices_for_current@.len() implies {
                            &&& input_indices_for_current@[m] < final_nodes@.len()
                            &&& now[input_indices_for_current@[m] as int].key() == grown[m]
                        } by {
                            if m < chosen.len() {
                                assert(held[chosen[m] as int].key() == so_far[m]);
                                assert(now[chosen[m] as int] == held[chosen[m] as int]);
                            }
                        }
                    }
                } else {
                    assert(a.input_key(key, source_op_idx as int) is None);
                    assert(grown == so_far);
                }
            } else {
                assert(a.input_key(key, source_op_idx as int) is None);
                assert(grown == so_far);
            }
            source_op_idx += 1;
        }
        let ghost filled = node_views(final_nodes@);
        let ghost chosen_inputs = input_indices_for_current@;
        proof {
            let wanted = a.input_keys(key);
            assert(wanted.subrange(wanted.len() as int, wanted.len() as int) + rest =~= rest);
        }
        final_nodes[current_node_idx].input_node_indices = input_indices_for_current;
        proof {
            let now = node_views(final_nodes@);
            assert forall|i: int| 0 <= i < now.len() implies (#[trigger] now[i]).key()
                == filled[i].key() by {}
            assert forall|i: int| 0 <= i < now.len() && i != current_node_idx implies #[trigger] now[i]
                == filled[i] by {}
            assert(keys_of(now) =~= keys_of(filled));
            assert(keys_valid(a, now));
            assert(keys_distinct(now)) by {
                assert forall|i: int, j: int| 0 <= i < j < now.len() implies #[trigger] now[i].key()
                    != #[trigger] now[j].key() by {
                    assert(filled[i].key() != filled[j].key());
                }
            }
            assert(keys_wanted(a, now)) by {
                assert forall|i: int| 0 <= i < now.len() implies key_wanted(
                    a,
                    now,
                    i,
                    #[trigger] now[i].key(),
                ) by {
                    lemma_key_wanted_extends(a, filled, now, i);
                }
            }
            assert forall|i: int| 0 <= i < now.len() && !open.contains(i) implies inputs_match(
                a,
                now,
                i,
            ) by {
                if i != current_node_idx {
                    assert(!busy.contains(i));
                    lemma_inputs_match_extends(a, filled, now, i);
                } else {
                    let wanted = a.input_keys(key);
                    assert(now[i].inputs == chosen_inputs);
                    assert forall|m: int|
                        #![trigger now[i].inputs[m]]
                        #![trigger wanted[m]]
                        0 <= m < wanted.len() implies {
                        &&& now[i].inputs[m] < now.len()
                        &&& now[now[i].inputs[m] as int].key() == wanted[m]
                    } by {
                        assert(filled[chosen_inputs[m] as int].key() == wanted[m]);
                    }
                }
            }
        }
        current_node_idx
    }
}

/// A node that is wanted in a list is wanted in every list that holds the
/// same keys at the places before it.
proof fn lemma_key_wanted_extends(
    a: AlgorithmView,
    old_nodes: Seq<UnrolledNodeView>,
    new_nodes: Seq<UnrolledNodeView>,
    i: int,
)
    requires
        0 <= i < new_nodes.len(),
        old_nodes.len() <= new_nodes.len(),
        forall|j: int| 0 <= j < old_nodes.len() ==> (#[trigger] new_nodes[j]).key() == old_nodes[j].key(),
        i < old_nodes.len() ==> key_wanted(a, old_nodes, i, old_nodes[i].key()),
        i >= old_nodes.len() ==> key_wanted(a, old_nodes, old_nodes.len() as int, new_nodes[i].key()),
    ensures
        key_wanted(a, new_nodes, i, new_nodes[i].key()),
{
    let key = new_nodes[i].key();
    if !a.is_carrier_key(key) {
        let limit = if i < old_nodes.len() {
            i
        } else {
            old_nodes.len() as int
        };
        assert(key_follows(a, old_nodes, limit, key));
        let (j, m) = choose|j: int, m: int|
            0 <= j < limit && j < old_nodes.len() && 0 <= m < a.input_keys(old_nodes[j].key()).len()
                && #[trigger] a.input_keys(old_nodes[j].key())[m] == key;
        assert(new_nodes[j].key() == old_nodes[j].key());
        assert(a.input_keys(new_nodes[j].key())[m] == key);
    }
}

/// A complete node stays complete in every list that holds the same nodes
/// at the places of the old list, up to the inputs of other nodes.
proof fn lemma_inputs_match_extends(
    a: AlgorithmView,
    old_nodes: Seq<UnrolledNodeView>,
    new_nodes: Seq<UnrolledNodeView>,
    i: int,
)
    requires
        0 <= i < old_nodes.len(),
        old_nodes.len() <= new_nodes.len(),
        forall|j: int| 0 <= j < old_nodes.len() ==> (#[trigger] new_nodes[j]).key() == old_nodes[j].key(),
        new_nodes[i] == old_nodes[i],
        inputs_match(a, old_nodes, i),
    ensures
        inputs_match(a, new_nodes, i),
{
    let wanted = a.input_keys(new_nodes[i].key());
    assert forall|m: int|
        #![trigger new_nodes[i].inputs[m]]
        #![trigger wanted[m]]
        0 <= m < wanted.len() implies {
        &&& new_nodes[i].inputs[m] < new_nodes.len()
        &&& new_nodes[new_nodes[i].inputs[m] as int].key() == wanted[m]
    } by {
        assert(a.input_keys(old_nodes[i].key())[m] == wanted[m]);
        let t = old_nodes[i].inputs[m] as int;
        assert(old_nodes[t].key() == wanted[m]);
        assert(new_nodes[t].key() == old_nodes[t].key());
    }
}

impl Algorithm {
    /// Tells whether the matrix is square and every carrier names an
    /// operator.
    pub fn is_well_formed(&self) -> (valid: bool)
        ensures
            valid == self@.well_formed(),
    {
        let num_ops = self.matrix.len();
        let mut row: usize = 0;
        while row < num_ops
            invariant
                num_ops == self.matrix.len(),
                row <= num_ops,
                forall|i: int| 0 <= i < row ==> (#[trigger] self@.matrix[i]).len() == num_ops,
            decreases num_ops - row,
        {
            if self.matrix[row].len() != num_ops {
                assert(self@.matrix[row as int].len() != num_ops);
                return false;
            }
            row += 1;
        }
        let mut k: usize = 0;
        while k < self.carriers.len()
            invariant
                num_ops == self.matrix.len(),
                k <= self.carriers.len(),
                forall|j: int| 0 <= j < k ==> #[trigger] self@.carriers[j] < num_ops,
            decreases self.carriers.len() - k,
        {
            if self.carriers[k] >= num_ops {
                assert(self@.carriers[k as int] >= num_ops);
                return false;
            }
            k += 1;
        }
        true
    }

    /// Unrolls the algorithm: one node for each operator and level that is
    /// reached from a carrier at the highest level, and for each carrier its
    /// node.
    pub fn unroll(&self) -> (graph: UnrolledGraph)
        requires
            self@.well_formed(),
        ensures
            graph@.unrolls(self@),
            graph@.keys() == self@.discovery_order(),
            graph@.well_formed(self@.num_operators()),
    {
        let max_level = self.max_level();
        let mut final_nodes: Vec<UnrolledNode> = Vec::new();
        let mut final_carrier_indices: Vec<usize> = Vec::new();
        let mut k: usize = 0;
        proof {
            let roots = self@.carrier_keys();
            assert(roots.subrange(0, roots.len() as int) =~= roots);
            assert(keys_of(node_views(final_nodes@)) =~= Seq::<NodeKey>::empty());
        }
        while k < self.carriers.len()
            invariant
                self@.well_formed(),
                max_level == self@.max_level(),
                k <= self.carriers.len(),
                under_construction(self@, node_views(final_nodes@), Set::empty()),
                self@.discovery_order() == self@.discovered(
                    keys_of(node_views(final_nodes@)),
                    self@.carrier_keys().subrange(k as int, self@.carriers.len() as int),
                ),
                final_carrier_indices@.len() == k,
                forall|c: int|
                    0 <= c < k ==> {
                        &&& (#[trigger] final_carrier_indices@[c]) < final_nodes@.len()
                        &&& node_views(final_nodes@)[final_carrier_indices@[c] as int].key()
                            == NodeKey { operator: self@.carriers[c] as int, level: max_level as int }
                    },
            decreases self.carriers.len() - k,
        {
            let op_idx = self.carriers[k];
            let ghost held = node_views(final_nodes@);
            let ghost chosen = final_carrier_indices@;
            proof {
                assert(self@.carriers[k as int] == op_idx);
                assert(self@.is_carrier_key(
                    NodeKey { operator: op_idx as int, level: max_level as int },
                ));
                let roots = self@.carrier_keys();
                assert(seq![NodeKey { operator: op_idx as int, level: max_level as int }]
                    + roots.subrange(k + 1, roots.len() as int) =~= roots.subrange(
                    k as int,
                    roots.len() as int,
                ));
            }
            let carrier_node_idx = self.get_or_create_node_index(
                op_idx,
                max_level,
                &mut final_nodes,
                Ghost(Set::empty()),
                Ghost(self@.carrier_keys().subrange(k + 1, self@.carriers.len() as int)),
            );
            final_carrier_indices.push(carrier_node_idx);
            proof {
                let now = node_views(final_nodes@);
                assert forall|c: int| 0 <= c < k + 1 implies {
                    &&& (#[trigger] final_carrier_indices@[c]) < final_nodes@.len()
                    &&& now[final_carrier_indices@[c] as int].key() == NodeKey {
                        operator: self@.carriers[c] as int,
                        level: max_level as int,
                    }
                } by {
                    if c < k {
                        assert(chosen[c] < held.len());
                        assert(final_nodes@[chosen[c] as int]@ == held[chosen[c] as int]);
                    }
                }
            }
            k += 1;
        }
        let graph = UnrolledGraph { nodes: final_nodes, carrier_node_indices: final_carrier_indices };
        proof {
            let g = graph@;
            assert(g.nodes == node_views(final_nodes@));
            assert forall|i: int| 0 <= i < g.nodes.len() implies inputs_match(self@, g.nodes, i) by {
                assert(!Set::<int>::empty().contains(i));
            }
            assert forall|c: int| 0 <= c < g.carrier_nodes.len() implies {
                &&& (#[trigger] g.carrier_nodes[c]) < g.nodes.len()
                &&& g.nodes[g.carrier_nodes[c] as int].key() == NodeKey {
                    operator: self@.carriers[c] as int,
                    level: self@.max_level() as int,
                }
            } by {
                assert(final_carrier_indices@[c] < final_nodes@.len());
            }
            lemma_unrolled_graph_is_well_formed(self@, g);
        }
        graph
    }
}

/// In the unrolled form of an algorithm every index is in range: a walk
/// along the inputs, from the carrier nodes, never leaves the node list nor
/// the operators.
pub proof fn lemma_unrolled_graph_is_well_formed(a: AlgorithmView, g: UnrolledGraphView)
    requires
        g.unrolls(a),
    ensures
        g.well_formed(a.num_operators()),
{
    assert forall|i: int| 0 <= i < g.nodes.len() implies 0 <= (#[trigger] g.nodes[i]).operator
        < a.num_operators() by {
        assert(a.has_key(g.nodes[i].key()));
    }
    assert forall|i: int, m: int|
        0 <= i < g.nodes.len() && 0 <= m < g.nodes[i].inputs.len()
            implies #[trigger] g.nodes[i].inputs[m] < g.nodes.len() by {
        assert(inputs_match(a, g.nodes, i));
    }
}

impl UnrolledGraphView {
    /// Some node of the graph stands for `key`.
    pub open spec fn has_node(self, key: NodeKey) -> bool {
        exists|i: int| 0 <= i < self.nodes.len() && (#[trigger] self.nodes[i]).key() == key
    }

    /// The keys of the nodes, in the order of the node list.
    pub open spec fn keys(self) -> Seq<NodeKey> {
        keys_of(self.nodes)
    }
}

/// The unrolled form of an algorithm holds at most one node for each
/// operator and level: no more than the number of operators times one more
/// than the highest level.
pub proof fn lemma_node_count_bounded(a: AlgorithmView, g: UnrolledGraphView)
    requires
        g.unrolls(a),
    ensures
        g.nodes.len() <= a.num_operators() * (a.max_level() + 1),
{
    lemma_distinct_keys_bounded(a, g.nodes);
}

/// Node `i` of one unrolled form of an algorithm has a counterpart in every
/// other: the index of a node of `other` that stands for the same operator
/// at the same level.
pub proof fn lemma_counterpart(
    a: AlgorithmView,
    g: UnrolledGraphView,
    other: UnrolledGraphView,
    i: int,
) -> (j: int)
    requires
        g.unrolls(a),
        other.unrolls(a),
        0 <= i < g.nodes.len(),
    ensures
        0 <= j < other.nodes.len(),
        other.nodes[j].key() == g.nodes[i].key(),
    decreases i,
{
    let key = g.nodes[i].key();
    assert(key_wanted(a, g.nodes, i, key));
    if a.is_carrier_key(key) {
        let k = choose|k: int| 0 <= k < a.carriers.len() && #[trigger] a.carriers[k] == key.operator;
        let j = other.carrier_nodes[k] as int;
        assert(other.nodes[j].key() == key);
        j
    } else {
        let (parent, m) = choose|parent: int, m: int|
            0 <= parent < i && parent < g.nodes.len() && 0 <= m < a.input_keys(
                g.nodes[parent].key(),
            ).len() && #[trigger] a.input_keys(g.nodes[parent].key())[m] == key;
        let twin = lemma_counterpart(a, g, other, parent);
        assert(inputs_match(a, other.nodes, twin));
        assert(a.input_keys(other.nodes[twin].key())[m] == key);
        let j = other.nodes[twin].inputs[m] as int;
        assert(other.nodes[j].key() == key);
        j
    }
}

/// Unrolling is determined by the algorithm. Any two unrolled forms of one
/// algorithm hold the same number of nodes, a node for the same operators
/// and levels, and for each carrier a node that stands for the same operator
/// and level.
pub proof fn lemma_unrolling_is_unique(
    a: AlgorithmView,
    first: UnrolledGraphView,
    second: UnrolledGraphView,
)
    requires
        first.unrolls(a),
        second.unrolls(a),
    ensures
        first.nodes.len() == second.nodes.len(),
        forall|key: NodeKey| first.has_node(key) <==> second.has_node(key),
        first.carrier_nodes.len() == second.carrier_nodes.len(),
        forall|k: int|
            0 <= k < first.carrier_nodes.len() ==> first.nodes[first.carrier_nodes[k] as int].key()
                == second.nodes[#[trigger] second.carrier_nodes[k] as int].key(),
{
    assert forall|key: NodeKey| first.has_node(key) <==> second.has_node(key) by {
        if first.has_node(key) {
            let i = choose|i: int| 0 <= i < first.nodes.len() && (#[trigger] first.nodes[i]).key() == key;
            let j = lemma_counterpart(a, first, second, i);
            assert(second.nodes[j].key() == key);
        }
        if second.has_node(key) {
            let i = choose|i: int|
                0 <= i < second.nodes.len() && (#[trigger] second.nodes[i]).key() == key;
            let j = lemma_counterpart(a, second, first, i);
            assert(first.nodes[j].key() == key);
        }
    }
    let keys1 = first.keys();
    let keys2 = second.keys();
    assert(keys1.no_duplicates()) by {
        assert forall|i: int, j: int|
            0 <= i < keys1.len() && 0 <= j < keys1.len() && i != j implies keys1[i] != keys1[j] by {
            if i < j {
                assert(first.nodes[i].key() != first.nodes[j].key());
            } else {
                assert(first.nodes[j].key() != first.nodes[i].key());
            }
        }
    }
    assert(keys2.no_duplicates()) by {
        assert forall|i: int, j: int|
            0 <= i < keys2.len() && 0 <= j < keys2.len() && i != j implies keys2[i] != keys2[j] by {
            if i < j {
                assert(second.nodes[i].key() != second.nodes[j].key());
            } else {
                assert(second.nodes[j].key() != second.nodes[i].key());
            }
        }
    }
    assert(keys1.to_set() =~= keys2.to_set()) by {
        assert forall|key: NodeKey| keys1.to_set().contains(key) <==> keys2.to_set().contains(
            key,
        ) by {
            if keys1.to_set().contains(key) {
                let i = choose|i: int| 0 <= i < keys1.len() && keys1[i] == key;
                assert(first.nodes[i].key() == key);
                assert(first.has_node(key));
                let j = choose|j: int|
                    0 <= j < second.nodes.len() && (#[trigger] second.nodes[j]).key() == key;
                assert(keys2[j] == key);
            }
            if keys2.to_set().contains(key) {
                let i = choose|i: int| 0 <= i < keys2.len() && keys2[i] == key;
                assert(second.nodes[i].key() == key);
                assert(second.has_node(key));
                let j = choose|j: int|
                    0 <= j < first.nodes.len() && (#[trigger] first.nodes[j]).key() == key;
                assert(keys1[j] == key);
            }
        }
    }
    keys1.unique_seq_to_set();
    keys2.unique_seq_to_set();
}

/// Every node that the algorithm asks for as an input of the node `key`
/// stands for an operator of the algorithm, at level zero or one level
/// below `key`.
proof fn lemma_input_keys_lie_lower(a: AlgorithmView, key: NodeKey, upto: int)
    requires
        0 <= upto <= a.matrix.len(),
        a.has_key(key),
    ensures
        forall|m: int|
            0 <= m < a.input_keys_upto(key, upto).len() ==> {
                let input = #[trigger] a.input_keys_upto(key, upto)[m];
                &&& a.has_key(input)
                &&& input.level == 0 || input.level == key.level - 1
            },
    decreases upto,
{
    if upto > 0 {
        lemma_input_keys_lie_lower(a, key, upto - 1);
        let before = a.input_keys_upto(key, upto - 1);
        let now = a.input_keys_upto(key, upto);
        assert forall|m: int| 0 <= m < now.len() implies {
            let input = #[trigger] now[m];
            &&& a.has_key(input)
            &&& input.level == 0 || input.level == key.level - 1
        } by {
            if m < before.len() {
                assert(now[m] == before[m]);
            } else {
                assert(a.input_key(key, upto - 1) == Some(now[m]));
            }
        }
    }
}

/// Unrolling leads downward: every input of a node of an unrolled form
/// stands at level zero or one level below the node. A walk along the
/// inputs never rises, so it can come back to its start only at level
/// zero, along direct connections.
pub proof fn lemma_inputs_lie_lower(a: AlgorithmView, g: UnrolledGraphView, i: int, m: int)
    requires
        g.unrolls(a),
        0 <= i < g.nodes.len(),
        0 <= m < g.nodes[i].inputs.len(),
    ensures
        g.nodes[i].inputs[m] < g.nodes.len(),
        g.nodes[g.nodes[i].inputs[m] as int].level == 0 || g.nodes[g.nodes[i].inputs[m] as int].level
            == g.nodes[i].level - 1,
        g.nodes[g.nodes[i].inputs[m] as int].level <= g.nodes[i].level,
{
    assert(a.has_key(g.nodes[i].key()));
    assert(inputs_match(a, g.nodes, i));
    lemma_input_keys_lie_lower(a, g.nodes[i].key(), a.matrix.len() as int);
    assert(g.nodes[g.nodes[i].inputs[m] as int].key() == a.input_keys(g.nodes[i].key())[m]);
}

/// An unrolled form of an algorithm is fixed by the order of its nodes: two
/// unrolled forms of one algorithm whose nodes stand for the same operators
/// and levels in the same order are the same graph. So the unrolled form
/// whose nodes stand in the order of discovery is one graph, however often
/// it is built.
pub proof fn lemma_unrolled_form_is_determined(
    a: AlgorithmView,
    first: UnrolledGraphView,
    second: UnrolledGraphView,
)
    requires
        first.unrolls(a),
        second.unrolls(a),
        first.keys() == second.keys(),
    ensures
        first == second,
{
    assert(first.nodes.len() == second.nodes.len()) by {
        assert(first.keys().len() == first.nodes.len());
        assert(second.keys().len() == second.nodes.len());
    }
    assert forall|i: int| 0 <= i < first.nodes.len() implies first.nodes[i].key()
        == #[trigger] second.nodes[i].key() by {
        assert(first.keys()[i] == first.nodes[i].key());
        assert(second.keys()[i] == second.nodes[i].key());
    }
    assert forall|i: int| 0 <= i < first.nodes.len() implies #[trigger] first.nodes[i]
        == second.nodes[i] by {
        let wanted = a.input_keys(first.nodes[i].key());
        assert(second.nodes[i].key() == first.nodes[i].key());
        assert(inputs_match(a, first.nodes, i));
        assert(inputs_match(a, second.nodes, i));
        assert forall|m: int| 0 <= m < wanted.len() implies first.nodes[i].inputs[m]
            == second.nodes[i].inputs[m] by {
            let here = first.nodes[i].inputs[m] as int;
            let there = second.nodes[i].inputs[m] as int;
            assert(first.nodes[here].key() == wanted[m]);
            assert(second.nodes[there].key() == wanted[m]);
            assert(first.nodes[there].key() == second.nodes[there].key());
            if here < there {
                assert(first.nodes[here].key() != first.nodes[there].key());
            } else if there < here {
                assert(first.nodes[there].key() != first.nodes[here].key());
            }
        }
        assert(first.nodes[i].inputs =~= second.nodes[i].inputs);
    }
    assert(first.nodes =~= second.nodes);
    assert forall|k: int| 0 <= k < first.carrier_nodes.len() implies first.carrier_nodes[k]
        == second.carrier_nodes[k] by {
        let here = first.carrier_nodes[k] as int;
        let there = second.carrier_nodes[k] as int;
        assert(first.nodes[here].key() == second.nodes[there].key());
        if here < there {
            assert(first.nodes[here].key() != first.nodes[there].key());
        } else if there < here {
            assert(first.nodes[there].key() != first.nodes[here].key());
        }
    }
    assert(first.carrier_nodes =~= second.carrier_nodes);
}

} // verus!
