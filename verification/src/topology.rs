//! The topology store: what a node has learnt of the network from the paths
//! that its floods brought back.

use vstd::prelude::*;
use crate::error::ProtocolError;
use crate::packet::{NodeFact, NodeId, NodeType};

verus! {

/// The two ends of an undirected link, the smaller identifier first.
pub open spec fn ordered(a: NodeId, b: NodeId) -> (NodeId, NodeId) {
    if a <= b {
        (a, b)
    } else {
        (b, a)
    }
}

/// Mathematical model of the store: the role of each known node, and the
/// links seen between nodes, each as an ordered pair.
pub struct TopologyView {
    pub nodes: Map<NodeId, NodeType>,
    pub edges: Set<(NodeId, NodeId)>,
}

impl TopologyView {
    /// The store that knows nothing.
    pub open spec fn empty() -> TopologyView {
        TopologyView { nodes: Map::empty(), edges: Set::empty() }
    }

    /// The node has been seen.
    #[verifier::inline]
    pub open spec fn knows(self, id: NodeId) -> bool {
        self.nodes.contains_key(id)
    }

    /// The node has been seen, and as a drone.
    pub open spec fn is_drone(self, id: NodeId) -> bool {
        self.nodes.contains_key(id) && self.nodes[id] == NodeType::Drone
    }

    /// A link between the two nodes has been seen, in either direction.
    pub open spec fn linked(self, a: NodeId, b: NodeId) -> bool {
        self.edges.contains(ordered(a, b))
    }

    /// Entry `i` of the trace gives its node another role than the store
    /// holds, or than an earlier entry of the trace gives.
    pub open spec fn contradicts(self, trace: Seq<NodeFact>, i: int) -> bool {
        ||| self.nodes.contains_key(trace[i].0) && self.nodes[trace[i].0] != trace[i].1
        ||| exists|j: int|
            0 <= j < i && (#[trigger] trace[j]).0 == trace[i].0 && trace[j].1 != trace[i].1
    }

    /// No entry of the trace contradicts the store or the trace itself.
    pub open spec fn consistent(self, trace: Seq<NodeFact>) -> bool {
        forall|i: int| 0 <= i < trace.len() ==> !#[trigger] self.contradicts(trace, i)
    }

    /// Entry `i` is the first one of the trace that contradicts.
    pub open spec fn is_first_contradiction(self, trace: Seq<NodeFact>, i: int) -> bool {
        &&& 0 <= i < trace.len()
        &&& self.contradicts(trace, i)
        &&& forall|j: int| 0 <= j < i ==> !#[trigger] self.contradicts(trace, j)
    }

    /// What offering the trace to the store gives: nothing to report for a
    /// consistent trace, else a type conflict that names the node of the
    /// first contradicting entry.
    pub open spec fn record_result(self, trace: Seq<NodeFact>) -> Result<(), ProtocolError> {
        if self.consistent(trace) {
            Ok(())
        } else {
            Err(
                ProtocolError::TypeConflict(
                    trace[choose|i: int| self.is_first_contradiction(trace, i)].0,
                ),
            )
        }
    }

    /// The trace visits the node.
    pub open spec fn visits(trace: Seq<NodeFact>, id: NodeId) -> bool {
        exists|i: int| 0 <= i < trace.len() && (#[trigger] trace[i]).0 == id
    }

    /// A position at which the trace visits the node.
    pub open spec fn position(trace: Seq<NodeFact>, id: NodeId) -> int {
        choose|i: int| 0 <= i < trace.len() && (#[trigger] trace[i]).0 == id
    }

    /// The trace passes from one of the two nodes straight to the other.
    pub open spec fn steps_over(trace: Seq<NodeFact>, edge: (NodeId, NodeId)) -> bool {
        exists|i: int|
            0 <= i < trace.len() - 1 && edge == ordered((#[trigger] trace[i]).0, trace[i + 1].0)
    }

    /// The store with the facts of a consistent trace added: every visited
    /// node with its role, and a link for every two consecutive entries.
    pub open spec fn with_path(self, trace: Seq<NodeFact>) -> TopologyView {
        TopologyView {
            nodes: Map::new(
                |id: NodeId| self.nodes.contains_key(id) || Self::visits(trace, id),
                |id: NodeId|
                    if self.nodes.contains_key(id) {
                        self.nodes[id]
                    } else {
                        trace[Self::position(trace, id)].1
                    },
            ),
            edges: Set::new(
                |edge: (NodeId, NodeId)| self.edges.contains(edge) || Self::steps_over(trace, edge),
            ),
        }
    }

    /// The store after a trace was offered to it: with the path where the
    /// trace is consistent, unchanged where it is not.
    pub open spec fn recorded(self, trace: Seq<NodeFact>) -> TopologyView {
        if self.consistent(trace) {
            self.with_path(trace)
        } else {
            self
        }
    }
}

/// The discovered graph of one node.
pub struct Topology {
    /// The role of each node, by identifier; `None` for a node not yet seen.
    roles: [Option<NodeType>; 256],
    /// The links, each once, the smaller identifier first.
    links: Vec<(NodeId, NodeId)>,
}

impl View for Topology {
    type V = TopologyView;

    closed spec fn view(&self) -> TopologyView {
        TopologyView {
            nodes: Map::new(
                |id: NodeId| self.roles@[id as int] is Some,
                |id: NodeId| self.roles@[id as int]->Some_0,
            ),
            edges: Set::new(|edge: (NodeId, NodeId)| self.links@.contains(edge)),
        }
    }
}

impl Topology {
    #[verifier::type_invariant]
    spec fn inv(self) -> bool {
        &&& forall|i: int|
            0 <= i < self.links@.len() ==> (#[trigger] self.links@[i]).0 <= self.links@[i].1
        &&& forall|i: int, j: int|
            0 <= i < j < self.links@.len() ==> #[trigger] self.links@[i]
                != #[trigger] self.links@[j]
    }

    /// A store that knows nothing.
    pub fn new() -> (store: Topology)
        ensures
            store@ == TopologyView::empty(),
    {
        let store = Topology { roles: [None; 256], links: Vec::new() };
        assert(store@.nodes =~= Map::<NodeId, NodeType>::empty());
        assert(store@.edges =~= Set::<(NodeId, NodeId)>::empty());
        store
    }

    /// Whether entry `at` of the trace contradicts the store or an earlier
    /// entry.
    fn check_entry(&self, path_trace: &[NodeFact], at: usize) -> (clash: bool)
        requires
            at < path_trace@.len(),
        ensures
            clash == self@.contradicts(path_trace@, at as int),
    {
        let (id, role) = path_trace[at];
        match self.roles[id as usize] {
            Some(stored) => {
                if stored != role {
                    return true;
                }
            },
            None => {},
        }
        let mut j: usize = 0;
        while j < at
            invariant
                j <= at < path_trace@.len(),
                (id, role) == path_trace@[at as int],
                forall|k: int|
                    0 <= k < j ==> !((#[trigger] path_trace@[k]).0 == id && path_trace@[k].1
                        != role),
            decreases at - j,
        {
            if path_trace[j].0 == id && path_trace[j].1 != role {
                return true;
            }
            j = j + 1;
        }
        false
    }

    /// Adds a link that the store does not hold yet.
    fn add_link(&mut self, a: NodeId, b: NodeId)
        ensures
            final(self)@.nodes == old(self)@.nodes,
            final(self)@.edges == old(self)@.edges.insert(ordered(a, b)),
    {
        proof {
            use_type_invariant(&*self);
        }
        let ghost before = self.links@;
        if !self.has_edge(a, b) {
            let edge = if a <= b {
                (a, b)
            } else {
                (b, a)
            };
            let mut links: Vec<(NodeId, NodeId)> = Vec::new();
            std::mem::swap(&mut links, &mut self.links);
            links.push(edge);
            self.links = links;
            assert forall|e: (NodeId, NodeId)|
                self.links@.contains(e) <==> before.contains(e) || e == edge by {
                if before.contains(e) {
                    let at = choose|at: int| 0 <= at < before.len() && before[at] == e;
                    assert(self.links@[at] == e);
                }
                if e == edge {
                    assert(self.links@[before.len() as int] == e);
                }
            }
        }
        assert(self@.edges =~= old(self)@.edges.insert(ordered(a, b)));
    }

    /// Takes in the path that a flood brought back: the role of every node
    /// on it, and a link between every two consecutive nodes.
    ///
    /// A trace that gives a node another role than the store holds, or two
    /// roles to one node, is refused as a whole: the store stays as it was,
    /// and the error names the node of the first such entry. Recording a
    /// path that the store already holds changes nothing.
    pub fn record_path(&mut self, path_trace: &[NodeFact]) -> (result: Result<(), ProtocolError>)
        ensures
            final(self)@ == old(self)@.recorded(path_trace@),
            result == old(self)@.record_result(path_trace@),
    {
        let n: usize = path_trace.len();
        let mut i: usize = 0;
        while i < n
            invariant
                n == path_trace@.len(),
                i <= n,
                *self == *old(self),
                forall|j: int| 0 <= j < i ==> !#[trigger] self@.contradicts(path_trace@, j),
            decreases n - i,
        {
            if self.check_entry(path_trace, i) {
                proof {
                    let first = choose|first: int|
                        self@.is_first_contradiction(path_trace@, first);
                    assert(self@.is_first_contradiction(path_trace@, i as int));
                    assert(first == i);
                }
                return Err(ProtocolError::TypeConflict(path_trace[i].0));
            }
            i = i + 1;
        }
        assert(old(self)@.consistent(path_trace@));
        let mut k: usize = 0;
        while k < n
            invariant
                n == path_trace@.len(),
                k <= n,
                old(self)@.consistent(path_trace@),
                self@.edges == old(self)@.edges,
                forall|id: NodeId|
                    #![trigger TopologyView::visits(path_trace@.take(k as int), id)]
                    #![trigger self@.nodes.contains_key(id)]
                    #![trigger old(self)@.nodes.contains_key(id)]
                    self@.knows(id) <==> old(self)@.knows(id) || TopologyView::visits(
                        path_trace@.take(k as int),
                        id,
                    ),
                forall|id: NodeId|
                    #![trigger self@.nodes[id]]
                    old(self)@.knows(id) ==> self@.nodes[id] == old(self)@.nodes[id],
                forall|j: int|
                    0 <= j < k ==> self@.knows((#[trigger] path_trace@[j]).0)
                        && self@.nodes[path_trace@[j].0] == path_trace@[j].1,
            decreases n - k,
        {
            let (id, role) = path_trace[k];
            let ghost before = self@;
            proof {
                use_type_invariant(&*self);
                assert(!old(self)@.contradicts(path_trace@, k as int));
            }
            self.roles[id as usize] = Some(role);
            proof {
                assert(self@.edges =~= before.edges);
                assert(self@.nodes =~= before.nodes.insert(id, role));
                assert(path_trace@.take(k + 1)[k as int] == path_trace@[k as int]);
                assert forall|other: NodeId|
                    self@.knows(other) <==> old(self)@.knows(other) || TopologyView::visits(
                        path_trace@.take(k + 1),
                        other,
                    ) by {
                    if TopologyView::visits(path_trace@.take(k as int), other) {
                        let at = choose|at: int|
                            0 <= at < k && (#[trigger] path_trace@.take(k as int)[at]).0 == other;
                        assert(path_trace@.take(k + 1)[at].0 == other);
                    }
                    if TopologyView::visits(path_trace@.take(k + 1), other) && other != id {
                        let at = choose|at: int|
                            0 <= at < k + 1 && (#[trigger] path_trace@.take(k + 1)[at]).0 == other;
                        assert(path_trace@.take(k as int)[at].0 == other);
                    }
                }
                assert forall|j: int| 0 <= j < k + 1 implies self@.knows(
                    (#[trigger] path_trace@[j]).0,
                ) && self@.nodes[path_trace@[j].0] == path_trace@[j].1 by {
                    if j < k && path_trace@[j].0 == id {
                        assert(!old(self)@.contradicts(path_trace@, k as int));
                    }
                }
            }
            k = k + 1;
        }
        assert(path_trace@.take(n as int) =~= path_trace@);
        if n == 0 {
            proof {
                let target = old(self)@.with_path(path_trace@);
                assert(self@.edges =~= target.edges);
                assert(self@.nodes =~= target.nodes);
            }
            return Ok(());
        }
        let mut m: usize = 1;
        while m < n
            invariant
                n == path_trace@.len(),
                1 <= m <= n,
                old(self)@.consistent(path_trace@),
                forall|id: NodeId|
                    #![trigger TopologyView::visits(path_trace@, id)]
                    #![trigger self@.nodes.contains_key(id)]
                    #![trigger old(self)@.nodes.contains_key(id)]
                    self@.knows(id) <==> old(self)@.knows(id) || TopologyView::visits(
                        path_trace@,
                        id,
                    ),
                forall|id: NodeId|
                    #![trigger self@.nodes[id]]
                    old(self)@.knows(id) ==> self@.nodes[id] == old(self)@.nodes[id],
                forall|j: int|
                    0 <= j < n ==> self@.knows((#[trigger] path_trace@[j]).0)
                        && self@.nodes[path_trace@[j].0] == path_trace@[j].1,
                forall|edge: (NodeId, NodeId)|
                    self@.edges.contains(edge) <==> old(self)@.edges.contains(edge)
                        || TopologyView::steps_over(path_trace@.take(m as int), edge),
            decreases n - m,
        {
            let ghost before = self@;
            self.add_link(path_trace[m - 1].0, path_trace[m].0);
            proof {
                assert(self@.nodes == before.nodes);
                let fresh = ordered(path_trace@[m - 1].0, path_trace@[m as int].0);
                assert forall|edge: (NodeId, NodeId)|
                    self@.edges.contains(edge) <==> old(self)@.edges.contains(edge)
                        || TopologyView::steps_over(path_trace@.take(m + 1), edge) by {
                    if TopologyView::steps_over(path_trace@.take(m as int), edge) {
                        let at = choose|at: int|
                            0 <= at < m - 1 && edge == ordered(
                                (#[trigger] path_trace@.take(m as int)[at]).0,
                                path_trace@.take(m as int)[at + 1].0,
                            );
                        assert(edge == ordered(
                            path_trace@.take(m + 1)[at].0,
                            path_trace@.take(m + 1)[at + 1].0,
                        ));
                    }
                    if edge == fresh {
                        assert(edge == ordered(
                            path_trace@.take(m + 1)[m - 1].0,
                            path_trace@.take(m + 1)[m - 1 + 1].0,
                        ));
                    }
                    if TopologyView::steps_over(path_trace@.take(m + 1), edge) && edge != fresh {
                        let at = choose|at: int|
                            0 <= at < m && edge == ordered(
                                (#[trigger] path_trace@.take(m + 1)[at]).0,
                                path_trace@.take(m + 1)[at + 1].0,
                            );
                        assert(at < m - 1);
                        assert(edge == ordered(
                            path_trace@.take(m as int)[at].0,
                            path_trace@.take(m as int)[at + 1].0,
                        ));
                    }
                }
            }
            m = m + 1;
        }
        proof {
            assert(path_trace@.take(n as int) =~= path_trace@);
            let target = old(self)@.with_path(path_trace@);
            assert(self@.edges =~= target.edges);
            assert forall|id: NodeId| self@.knows(id) implies #[trigger] self@.nodes[id]
                == target.nodes[id] by {
                if !old(self)@.knows(id) {
                    let at = TopologyView::position(path_trace@, id);
                    assert(self@.nodes[path_trace@[at].0] == path_trace@[at].1);
                }
            }
            assert(self@.nodes =~= target.nodes);
        }
        Ok(())
    }

    /// The role of a node, if the node has been seen.
    pub fn node_type(&self, id: NodeId) -> (role: Option<NodeType>)
        ensures
            role is Some <==> self@.knows(id),
            role matches Some(t) ==> self@.nodes[id] == t,
    {
        self.roles[id as usize]
    }

    /// Whether a link between the two nodes has been seen.
    pub fn has_edge(&self, a: NodeId, b: NodeId) -> (found: bool)
        ensures
            found == self@.linked(a, b),
    {
        let edge = if a <= b {
            (a, b)
        } else {
            (b, a)
        };
        let mut i: usize = 0;
        while i < self.links.len()
            invariant
                i <= self.links@.len(),
                edge == ordered(a, b),
                forall|j: int| 0 <= j < i ==> self.links@[j] != edge,
            decreases self.links@.len() - i,
        {
            if self.links[i].0 == edge.0 && self.links[i].1 == edge.1 {
                return true;
            }
            i = i + 1;
        }
        false
    }

    /// The known links, each once, the smaller identifier first.
    pub fn edges(&self) -> (links: &[(NodeId, NodeId)])
        ensures
            links@.no_duplicates(),
            forall|i: int| 0 <= i < links@.len() ==> (#[trigger] links@[i]).0 <= links@[i].1,
            forall|edge: (NodeId, NodeId)| links@.contains(edge) <==> self@.edges.contains(edge),
    {
        proof {
            use_type_invariant(self);
        }
        self.links.as_slice()
    }

    /// The known nodes with their roles, by ascending identifier.
    pub fn nodes(&self) -> (facts: Vec<NodeFact>)
        ensures
            forall|i: int, j: int|
                0 <= i < j < facts@.len() ==> (#[trigger] facts@[i]).0 < (#[trigger] facts@[j]).0,
            forall|id: NodeId, role: NodeType|
                facts@.contains((id, role)) <==> self@.knows(id) && self@.nodes[id] == role,
    {
        let mut facts: Vec<NodeFact> = Vec::new();
        let mut next: usize = 0;
        while next < 256
            invariant
                next <= 256,
                forall|i: int| 0 <= i < facts@.len() ==> (#[trigger] facts@[i]).0 < next,
                forall|i: int, j: int|
                    0 <= i < j < facts@.len() ==> (#[trigger] facts@[i]).0 < (
                    #[trigger] facts@[j]).0,
                forall|id: NodeId, role: NodeType|
                    facts@.contains((id, role)) <==> id < next && self@.knows(id)
                        && self@.nodes[id] == role,
            decreases 256 - next,
        {
            let ghost before = facts@;
            match self.roles[next] {
                Some(role) => {
                    facts.push((next as u8, role));
                    assert forall|id: NodeId, r: NodeType|
                        facts@.contains((id, r)) <==> id < next + 1 && self@.knows(id)
                            && self@.nodes[id] == r by {
                        if id == next && r == role {
                            assert(facts@[before.len() as int] == (id, r));
                        }
                        if before.contains((id, r)) {
                            let at = choose|at: int|
                                0 <= at < before.len() && before[at] == (id, r);
                            assert(facts@[at] == (id, r));
                        }
                    }
                },
                None => {},
            }
            next = next + 1;
        }
        facts
    }
}

/// A consistent trace agrees with the store that has taken it in: the store
/// holds, for every entry, the role that the entry gives.
pub proof fn lemma_with_path_holds_trace(store: TopologyView, trace: Seq<NodeFact>)
    requires
        store.consistent(trace),
    ensures
        store.with_path(trace).consistent(trace),
        forall|i: int|
            0 <= i < trace.len() ==> store.with_path(trace).knows((#[trigger] trace[i]).0)
                && store.with_path(trace).nodes[trace[i].0] == trace[i].1,
        forall|i: int|
            0 <= i < trace.len() - 1 ==> store.with_path(trace).linked(
                (#[trigger] trace[i]).0,
                trace[i + 1].0,
            ),
{
    let after = store.with_path(trace);
    assert forall|i: int| 0 <= i < trace.len() implies after.knows((#[trigger] trace[i]).0)
        && after.nodes[trace[i].0] == trace[i].1 by {
        let id = trace[i].0;
        assert(TopologyView::visits(trace, id));
        assert(!store.contradicts(trace, i));
        if !store.knows(id) {
            let j = TopologyView::position(trace, id);
            if j < i {
                assert(!store.contradicts(trace, i));
            } else if i < j {
                assert(!store.contradicts(trace, j));
            }
        }
    }
    assert forall|i: int| 0 <= i < trace.len() implies !#[trigger] after.contradicts(trace, i) by {
        assert(!store.contradicts(trace, i));
        assert(after.nodes[trace[i].0] == trace[i].1);
    }
    assert forall|i: int| 0 <= i < trace.len() - 1 implies after.linked(
        (#[trigger] trace[i]).0,
        trace[i + 1].0,
    ) by {
        assert(TopologyView::steps_over(trace, ordered(trace[i].0, trace[i + 1].0)));
    }
}

/// Recording is idempotent: a trace offered a second time leaves the store
/// as the first offer left it.
pub proof fn lemma_record_path_idempotent(store: TopologyView, trace: Seq<NodeFact>)
    ensures
        store.recorded(trace).recorded(trace) == store.recorded(trace),
{
    if store.consistent(trace) {
        let once = store.with_path(trace);
        lemma_with_path_holds_trace(store, trace);
        let twice = once.with_path(trace);
        assert forall|id: NodeId| TopologyView::visits(trace, id) implies once.knows(id) by {}
        assert(twice.nodes =~= once.nodes);
        assert(twice.edges =~= once.edges);
    }
}

/// Recording only adds: what the store held, it still holds.
pub proof fn lemma_record_path_keeps_facts(store: TopologyView, trace: Seq<NodeFact>)
    ensures
        forall|id: NodeId|
            store.knows(id) ==> store.recorded(trace).knows(id) && #[trigger] store.recorded(
                trace,
            ).nodes[id] == store.nodes[id],
        forall|edge: (NodeId, NodeId)|
            store.edges.contains(edge) ==> #[trigger] store.recorded(trace).edges.contains(edge),
{
}

/// Discovery does not depend on the order in which paths come in: two
/// traces that the store takes one after the other, it takes in the other
/// order too, and holds the same afterwards.
pub proof fn lemma_record_order_independent(
    store: TopologyView,
    first: Seq<NodeFact>,
    second: Seq<NodeFact>,
)
    requires
        store.consistent(first),
        store.with_path(first).consistent(second),
    ensures
        store.consistent(second),
        store.with_path(second).consistent(first),
        store.with_path(first).with_path(second) == store.with_path(second).with_path(first),
{
    let one = store.with_path(first);
    let two = store.with_path(second);
    lemma_with_path_holds_trace(store, first);
    assert forall|i: int| 0 <= i < second.len() implies !#[trigger] store.contradicts(
        second,
        i,
    ) by {
        assert(!one.contradicts(second, i));
    }
    lemma_with_path_holds_trace(store, second);
    assert forall|i: int| 0 <= i < first.len() implies !#[trigger] two.contradicts(first, i) by {
        let id = first[i].0;
        assert(!store.contradicts(first, i));
        assert(one.knows(id) && one.nodes[id] == first[i].1);
        if !store.knows(id) && TopologyView::visits(second, id) {
            let at = TopologyView::position(second, id);
            assert(!one.contradicts(second, at));
        }
    }
    lemma_with_path_holds_trace(one, second);
    lemma_with_path_holds_trace(two, first);
    let left = one.with_path(second);
    let right = two.with_path(first);
    assert forall|id: NodeId| left.knows(id) implies #[trigger] left.nodes[id]
        == right.nodes[id] by {
        if !store.knows(id) {
            if TopologyView::visits(first, id) && TopologyView::visits(second, id) {
                let at = TopologyView::position(second, id);
                assert(!one.contradicts(second, at));
                assert(two.nodes[second[at].0] == second[at].1);
            }
        }
    }
    assert(left.nodes =~= right.nodes);
    assert(left.edges =~= right.edges);
}

} // verus!
