//! Route computation: the shortest admissible hop sequence through the
//! discovered graph, found breadth-first from the destination outwards.

use vstd::prelude::*;
use crate::error::ProtocolError;
use crate::packet::{NodeId, NodeType};
use crate::topology::{ordered, Topology, TopologyView};

verus! {

/// The path moves over known links only, and every node strictly inside it
/// is a drone. Its two ends may be of any kind.
pub open spec fn is_relay_path(topology: TopologyView, path: Seq<NodeId>) -> bool {
    &&& path.len() >= 1
    &&& forall|i: int|
        #![trigger path[i]]
        0 <= i < path.len() - 1 ==> topology.linked(path[i], path[i + 1])
    &&& forall|i: int| #![trigger path[i]] 0 < i < path.len() - 1 ==> topology.is_drone(path[i])
}

/// The path is an admissible route: a relay path that starts at the source
/// and ends at the destination, which the store knows.
pub open spec fn is_route(
    topology: TopologyView,
    source: NodeId,
    destination: NodeId,
    path: Seq<NodeId>,
) -> bool {
    &&& is_relay_path(topology, path)
    &&& path[0] == source
    &&& path.last() == destination
    &&& topology.knows(destination)
}

/// Some admissible route leads from the source to the destination.
pub open spec fn has_route(topology: TopologyView, source: NodeId, destination: NodeId) -> bool {
    exists|path: Seq<NodeId>| is_route(topology, source, destination, path)
}

/// The two paths agree before position `k`, and there the first one names
/// the lower node.
pub open spec fn differs_lower_at(a: Seq<NodeId>, b: Seq<NodeId>, k: int) -> bool {
    &&& 0 <= k < a.len()
    &&& k < b.len()
    &&& a[k] < b[k]
    &&& forall|j: int| 0 <= j < k ==> a[j] == b[j]
}

/// The first path is the second one, or names the lower node where the two
/// first differ.
pub open spec fn lex_le(a: Seq<NodeId>, b: Seq<NodeId>) -> bool {
    a == b || exists|k: int| differs_lower_at(a, b, k)
}

/// The path is the route to take: admissible, no longer than any admissible
/// route, and among those of its length the one that names the lowest node
/// where they first differ.
pub open spec fn is_best_route(
    topology: TopologyView,
    source: NodeId,
    destination: NodeId,
    path: Seq<NodeId>,
) -> bool {
    &&& is_route(topology, source, destination, path)
    &&& forall|other: Seq<NodeId>| #[trigger]
        is_route(topology, source, destination, other) ==> path.len() <= other.len() && (
        other.len() == path.len() ==> lex_le(path, other))
}

/// The answer is the right one for the question: the best route where there
/// is an admissible route at all, and `NoRouteFound` where there is none.
pub open spec fn is_route_answer(
    topology: TopologyView,
    source: NodeId,
    destination: NodeId,
    answer: Result<Seq<NodeId>, ProtocolError>,
) -> bool {
    match answer {
        Ok(path) => is_best_route(topology, source, destination, path),
        Err(e) => e == ProtocolError::NoRouteFound && forall|other: Seq<NodeId>|
            !#[trigger] is_route(topology, source, destination, other),
    }
}

/// A relay path from `from` to the destination over exactly `hops` links.
spec fn reaches_in(
    topology: TopologyView,
    destination: NodeId,
    from: NodeId,
    hops: int,
    path: Seq<NodeId>,
) -> bool {
    &&& is_relay_path(topology, path)
    &&& path[0] == from
    &&& path.last() == destination
    &&& path.len() == hops + 1
}

/// Some relay path leads from `from` to the destination over `hops` links.
spec fn reachable_in(topology: TopologyView, destination: NodeId, from: NodeId, hops: int) -> bool {
    exists|path: Seq<NodeId>| reaches_in(topology, destination, from, hops, path)
}

/// No relay path from `from` to the destination has fewer than `bound` links.
spec fn unreachable_below(
    topology: TopologyView,
    destination: NodeId,
    from: NodeId,
    bound: int,
) -> bool {
    forall|hops: int| 0 <= hops < bound ==> !reachable_in(topology, destination, from, hops)
}

/// The table is right as far as it goes: an entry is the least number of
/// links from its node to the destination, and a node without entry is more
/// than `upto` links away.
spec fn settled(
    topology: TopologyView,
    destination: NodeId,
    levels: Seq<Option<u8>>,
    upto: int,
) -> bool {
    &&& levels.len() == 256
    &&& forall|v: NodeId|
        #![trigger levels[v as int]]
        match levels[v as int] {
            Some(hops) => reachable_in(topology, destination, v, hops as int) && unreachable_below(
                topology,
                destination,
                v,
                hops as int,
            ),
            None => unreachable_below(topology, destination, v, upto + 1),
        }
}

/// The list holds the links of the store, each once under the name that
/// has the smaller identifier first.
spec fn lists_links(links: Seq<(NodeId, NodeId)>, topology: TopologyView) -> bool {
    &&& forall|i: int| 0 <= i < links.len() ==> (#[trigger] links[i]).0 <= links[i].1
    &&& forall|edge: (NodeId, NodeId)| links.contains(edge) <==> topology.edges.contains(edge)
}

/// No entry of the table is above `top`.
spec fn capped(levels: Seq<Option<u8>>, top: int) -> bool {
    forall|v: int|
        #![trigger levels[v]]
        0 <= v < levels.len() ==> (levels[v] matches Some(hops) ==> hops <= top)
}

/// The node is `hops` links from the destination and may stand before the
/// end of a route: it is the destination itself, or a drone.
spec fn is_stage(topology: TopologyView, levels: Seq<Option<u8>>, node: NodeId, hops: u8) -> bool {
    levels[node as int] == Some(hops) && (hops == 0 || topology.is_drone(node))
}

/// Number of nodes without entry.
spec fn unset_count(levels: Seq<Option<u8>>) -> nat
    decreases levels.len(),
{
    if levels.len() == 0 {
        0
    } else {
        unset_count(levels.drop_last()) + if levels.last() is None {
            1nat
        } else {
            0nat
        }
    }
}

proof fn lemma_unset_update(levels: Seq<Option<u8>>, at: int, hops: u8)
    requires
        0 <= at < levels.len(),
        levels[at] is None,
    ensures
        unset_count(levels.update(at, Some(hops))) + 1 == unset_count(levels),
    decreases levels.len(),
{
    let changed = levels.update(at, Some(hops));
    if at == levels.len() - 1 {
        assert(changed.drop_last() =~= levels.drop_last());
    } else {
        assert(changed.drop_last() =~= levels.drop_last().update(at, Some(hops)));
        lemma_unset_update(levels.drop_last(), at, hops);
    }
}

proof fn lemma_unset_bound(levels: Seq<Option<u8>>)
    ensures
        unset_count(levels) <= levels.len(),
    decreases levels.len(),
{
    if levels.len() > 0 {
        lemma_unset_bound(levels.drop_last());
    }
}

/// A relay path without its first node is a relay path.
proof fn lemma_step_off(topology: TopologyView, path: Seq<NodeId>)
    requires
        is_relay_path(topology, path),
        path.len() >= 2,
    ensures
        is_relay_path(topology, path.subrange(1, path.len() as int)),
        topology.linked(path[0], path[1]),
        path.len() > 2 ==> topology.is_drone(path[1]),
{
    let rest = path.subrange(1, path.len() as int);
    assert forall|i: int| #![trigger rest[i]] 0 <= i < rest.len() - 1 implies topology.linked(
        rest[i],
        rest[i + 1],
    ) by {
        assert(topology.linked(path[i + 1], path[i + 1 + 1]));
    }
    assert forall|i: int| #![trigger rest[i]] 0 < i < rest.len() - 1 implies topology.is_drone(
        rest[i],
    ) by {
        assert(topology.is_drone(path[i + 1]));
    }
    assert(topology.linked(path[0int], path[0int + 1]));
    if path.len() > 2 {
        assert(topology.is_drone(path[1]));
    }
}

/// A relay path with a linked node put before it is a relay path, where the
/// old first node may relay.
proof fn lemma_step_on(topology: TopologyView, first: NodeId, rest: Seq<NodeId>)
    requires
        is_relay_path(topology, rest),
        topology.linked(first, rest[0]),
        rest.len() > 1 ==> topology.is_drone(rest[0]),
    ensures
        is_relay_path(topology, seq![first] + rest),
{
    let path = seq![first] + rest;
    assert forall|i: int| #![trigger path[i]] 0 <= i < path.len() - 1 implies topology.linked(
        path[i],
        path[i + 1],
    ) by {
        if i > 0 {
            assert(path[i] == rest[i - 1]);
            assert(path[i + 1] == rest[i - 1 + 1]);
            assert(topology.linked(rest[i - 1], rest[i - 1 + 1]));
        }
    }
    assert forall|i: int| #![trigger path[i]] 0 < i < path.len() - 1 implies topology.is_drone(
        path[i],
    ) by {
        if i > 1 {
            assert(path[i] == rest[i - 1]);
            assert(topology.is_drone(rest[i - 1]));
        }
    }
}

/// The tail of a relay path from any of its positions is a relay path.
proof fn lemma_tail(topology: TopologyView, path: Seq<NodeId>, from: int)
    requires
        is_relay_path(topology, path),
        0 <= from < path.len(),
    ensures
        is_relay_path(topology, path.subrange(from, path.len() as int)),
{
    let rest = path.subrange(from, path.len() as int);
    assert forall|i: int| #![trigger rest[i]] 0 <= i < rest.len() - 1 implies topology.linked(
        rest[i],
        rest[i + 1],
    ) by {
        assert(topology.linked(path[i + from], path[i + from + 1]));
    }
    assert forall|i: int| #![trigger rest[i]] 0 < i < rest.len() - 1 implies topology.is_drone(
        rest[i],
    ) by {
        assert(topology.is_drone(path[i + from]));
    }
}

/// Where a node is `hops` links away and no nearer, the second node of any
/// path of that length is one link nearer, and is a stage.
proof fn lemma_second_node(
    topology: TopologyView,
    destination: NodeId,
    levels: Seq<Option<u8>>,
    upto: int,
    from: NodeId,
    hops: int,
    path: Seq<NodeId>,
)
    requires
        settled(topology, destination, levels, upto),
        1 <= hops <= upto + 1,
        reaches_in(topology, destination, from, hops, path),
        unreachable_below(topology, destination, from, hops),
    ensures
        topology.linked(from, path[1]),
        hops <= 256,
        is_stage(topology, levels, path[1], (hops - 1) as u8),
{
    let next = path[1];
    let rest = path.subrange(1, path.len() as int);
    lemma_step_off(topology, path);
    assert(reaches_in(topology, destination, next, hops - 1, rest));
    assert(reachable_in(topology, destination, next, hops - 1));
    match levels[next as int] {
        None => {
            assert(unreachable_below(topology, destination, next, upto + 1));
            assert(false);
        },
        Some(known) => {
            if known < hops - 1 {
                let shorter = choose|shorter: Seq<NodeId>|
                    reaches_in(topology, destination, next, known as int, shorter);
                lemma_step_on(topology, from, shorter);
                assert(reaches_in(
                    topology,
                    destination,
                    from,
                    known + 1,
                    seq![from] + shorter,
                ));
                assert(reachable_in(topology, destination, from, known + 1));
                assert(false);
            }
            if known > hops - 1 {
                assert(unreachable_below(topology, destination, next, known as int));
                assert(false);
            }
        },
    }
}

/// Once a round of the search has found no new node, the table is right for
/// every distance.
proof fn lemma_closed(
    topology: TopologyView,
    destination: NodeId,
    levels: Seq<Option<u8>>,
    top: int,
    upto: int,
)
    requires
        0 <= top,
        settled(topology, destination, levels, top + 1),
        capped(levels, top),
    ensures
        settled(topology, destination, levels, upto),
    decreases upto,
{
    if upto <= top + 1 {
        assert forall|v: NodeId| levels[v as int] is None implies unreachable_below(
            topology,
            destination,
            v,
            upto + 1,
        ) by {
            assert(unreachable_below(topology, destination, v, top + 1 + 1));
        }
    } else {
        lemma_closed(topology, destination, levels, top, upto - 1);
        assert forall|v: NodeId| levels[v as int] is None implies unreachable_below(
            topology,
            destination,
            v,
            upto + 1,
        ) by {
            assert(unreachable_below(topology, destination, v, upto));
            if reachable_in(topology, destination, v, upto) {
                let path = choose|path: Seq<NodeId>|
                    reaches_in(topology, destination, v, upto, path);
                lemma_second_node(topology, destination, levels, upto - 1, v, upto, path);
                assert(levels[path[1] as int] == Some((upto - 1) as u8));
                assert(false);
            }
        }
    }
}

/// Whether a node of the store is a drone.
fn is_relay(topology: &Topology, node: NodeId) -> (relay: bool)
    ensures
        relay == topology@.is_drone(node),
{
    match topology.node_type(node) {
        Some(NodeType::Drone) => true,
        _ => false,
    }
}

/// Whether the node is a stage at `hops` links from the destination.
fn stage_at(topology: &Topology, levels: &[Option<u8>; 256], node: NodeId, hops: u8) -> (stage:
    bool)
    ensures
        stage == is_stage(topology@, levels@, node, hops),
{
    match levels[node as usize] {
        Some(known) => known == hops && (hops == 0 || is_relay(topology, node)),
        None => false,
    }
}

/// One round of the search: every node without entry that is linked to a
/// stage at `hops` links gets the entry `hops + 1`. Tells whether any did.
fn spread(
    topology: &Topology,
    links: &[(NodeId, NodeId)],
    destination: NodeId,
    levels: &mut [Option<u8>; 256],
    hops: u8,
) -> (found: bool)
    requires
        lists_links(links@, topology@),
        settled(topology@, destination, old(levels)@, hops as int),
        capped(old(levels)@, hops as int),
        hops + unset_count(old(levels)@) <= 255,
    ensures
        settled(topology@, destination, final(levels)@, hops + 1),
        found ==> capped(final(levels)@, hops + 1) && hops + 1 + unset_count(final(levels)@)
            <= 255,
        !found ==> final(levels)@ == old(levels)@,
        unset_count(final(levels)@) <= unset_count(old(levels)@),
        found ==> unset_count(final(levels)@) < unset_count(old(levels)@),
{
    let ghost start = levels@;
    let ghost graph = topology@;
    let mut found = false;
    let mut i: usize = 0;
    while i < links.len()
        invariant
            i <= links@.len(),
            graph == topology@,
            start.len() == 256,
            lists_links(links@, graph),
            settled(graph, destination, start, hops as int),
            capped(start, hops as int),
            hops + unset_count(start) <= 255,
            unset_count(levels@) <= unset_count(start),
            found ==> unset_count(levels@) < unset_count(start),
            !found ==> levels@ == start,
            forall|v: NodeId|
                #![trigger levels@[v as int]]
                #![trigger start[v as int]]
                start[v as int] is Some ==> levels@[v as int] == start[v as int],
            forall|v: NodeId|
                #![trigger levels@[v as int]]
                start[v as int] is None ==> levels@[v as int] is None || (levels@[v as int]
                    == Some((hops + 1) as u8) && hops < 255 && reachable_in(
                    graph,
                    destination,
                    v,
                    hops + 1,
                )),
            forall|v: NodeId, j: int|
                #![trigger levels@[v as int], links@[j]]
                0 <= j < i && levels@[v as int] is None ==> !(links@[j].0 == v && is_stage(
                    graph,
                    start,
                    links@[j].1,
                    hops,
                )) && !(links@[j].1 == v && is_stage(graph, start, links@[j].0, hops)),
        decreases links@.len() - i,
    {
        let (a, b) = links[i];
        proof {
            assert(links@.contains(links@[i as int]));
            assert(ordered(a, b) == (a, b));
            assert(ordered(b, a) == (a, b));
            assert(graph.linked(a, b) && graph.linked(b, a));
        }
        if stage_at(topology, levels, a, hops) && levels[b as usize].is_none() {
            proof {
                lemma_reach_over(graph, destination, start, hops, a, b);
                lemma_unset_update(levels@, b as int, (hops + 1) as u8);
                lemma_unset_bound(levels@.update(b as int, Some((hops + 1) as u8)));
            }
            levels[b as usize] = Some(hops + 1);
            found = true;
        }
        if stage_at(topology, levels, b, hops) && levels[a as usize].is_none() {
            proof {
                lemma_reach_over(graph, destination, start, hops, b, a);
                lemma_unset_update(levels@, a as int, (hops + 1) as u8);
                lemma_unset_bound(levels@.update(a as int, Some((hops + 1) as u8)));
            }
            levels[a as usize] = Some(hops + 1);
            found = true;
        }
        i = i + 1;
    }
    proof {
        assert forall|v: NodeId| #![trigger levels@[v as int]] levels@[v as int]
            is None implies unreachable_below(graph, destination, v, hops + 1 + 1) by {
            assert(start[v as int] is None);
            assert(unreachable_below(graph, destination, v, hops + 1));
            if reachable_in(graph, destination, v, hops + 1) {
                let far: int = hops + 1;
                let path = choose|path: Seq<NodeId>|
                    reaches_in(graph, destination, v, far, path);
                lemma_second_node(graph, destination, start, hops as int, v, hops + 1, path);
                let next = path[1];
                assert(graph.edges.contains(ordered(v, next)));
                assert(links@.contains(ordered(v, next)));
                let j = choose|j: int| 0 <= j < links@.len() && links@[j] == ordered(v, next);
                assert(links@[j].0 == v && links@[j].1 == next || links@[j].0 == next && links@[j].1
                    == v);
                assert(false);
            }
        }
        assert forall|v: NodeId| #![trigger levels@[v as int]] levels@[v as int]
            is Some implies reachable_in(
            graph,
            destination,
            v,
            levels@[v as int]->Some_0 as int,
        ) && unreachable_below(graph, destination, v, levels@[v as int]->Some_0 as int) by {
            if start[v as int] is None {
                assert(unreachable_below(graph, destination, v, hops + 1));
            }
        }
        if found {
            assert forall|v: int| #![trigger levels@[v]] 0 <= v < levels@.len() implies (
            levels@[v] matches Some(known) ==> known <= hops + 1) by {
                let node = v as NodeId;
                assert(levels@[node as int] == levels@[v]);
                if start[node as int] is Some {
                    assert(start[v] is Some);
                }
            }
        }
    }
    found
}

/// A node linked to a stage at `hops` links is within `hops + 1` links.
proof fn lemma_reach_over(
    topology: TopologyView,
    destination: NodeId,
    levels: Seq<Option<u8>>,
    hops: u8,
    stage: NodeId,
    node: NodeId,
)
    requires
        settled(topology, destination, levels, hops as int),
        is_stage(topology, levels, stage, hops),
        topology.linked(node, stage),
    ensures
        reachable_in(topology, destination, node, hops + 1),
{
    assert(reachable_in(topology, destination, stage, hops as int));
    let near: int = hops as int;
    let rest = choose|rest: Seq<NodeId>| reaches_in(topology, destination, stage, near, rest);
    lemma_step_on(topology, node, rest);
    assert(reaches_in(topology, destination, node, hops + 1, seq![node] + rest));
}

/// For every node, the least number of links of a relay path from it to the
/// destination; no entry for a node that no relay path leads from.
fn hop_counts(
    topology: &Topology,
    links: &[(NodeId, NodeId)],
    destination: NodeId,
) -> (levels: [Option<u8>; 256])
    requires
        lists_links(links@, topology@),
    ensures
        forall|upto: int| #[trigger] settled(topology@, destination, levels@, upto),
{
    let mut levels: [Option<u8>; 256] = [None; 256];
    proof {
        lemma_unset_bound(levels@);
        lemma_unset_update(levels@, destination as int, 0u8);
    }
    levels[destination as usize] = Some(0u8);
    proof {
        assert(reaches_in(topology@, destination, destination, 0, seq![destination]));
        assert forall|v: NodeId| v != destination implies !reachable_in(
            topology@,
            destination,
            v,
            0,
        ) by {}
    }
    let mut hops: u8 = 0;
    let mut growing = true;
    while growing
        invariant
            lists_links(links@, topology@),
            settled(topology@, destination, levels@, hops as int),
            capped(levels@, hops as int),
            hops + unset_count(levels@) <= 255,
            !growing ==> forall|upto: int| #[trigger]
                settled(topology@, destination, levels@, upto),
        decreases
                unset_count(levels@),
                if growing {
                    1nat
                } else {
                    0nat
                },
    {
        let found = spread(topology, links, destination, &mut levels, hops);
        if found {
            hops = hops + 1;
        } else {
            growing = false;
            proof {
                assert forall|upto: int| #[trigger]
                    settled(topology@, destination, levels@, upto) by {
                    lemma_closed(topology@, destination, levels@, hops as int, upto);
                }
            }
        }
    }
    levels
}

/// The lowest node that is linked to `current` and is a stage at `hops`
/// links from the destination.
fn least_next_hop(
    topology: &Topology,
    links: &[(NodeId, NodeId)],
    levels: &[Option<u8>; 256],
    current: NodeId,
    hops: u8,
) -> (next: Option<NodeId>)
    requires
        lists_links(links@, topology@),
    ensures
        match next {
            Some(node) => topology@.linked(current, node) && is_stage(
                topology@,
                levels@,
                node,
                hops,
            ) && forall|other: NodeId|
                topology@.linked(current, other) && #[trigger] is_stage(
                    topology@,
                    levels@,
                    other,
                    hops,
                ) ==> node <= other,
            None => forall|other: NodeId|
                !(topology@.linked(current, other) && #[trigger] is_stage(
                    topology@,
                    levels@,
                    other,
                    hops,
                )),
        },
{
    let mut best: Option<NodeId> = None;
    let mut i: usize = 0;
    while i < links.len()
        invariant
            i <= links@.len(),
            lists_links(links@, topology@),
            best matches Some(node) ==> topology@.linked(current, node) && is_stage(
                topology@,
                levels@,
                node,
                hops,
            ),
            forall|j: int|
                #![trigger links@[j]]
                0 <= j < i && links@[j].0 == current && is_stage(
                    topology@,
                    levels@,
                    links@[j].1,
                    hops,
                ) ==> (best matches Some(node) && node <= links@[j].1),
            forall|j: int|
                #![trigger links@[j]]
                0 <= j < i && links@[j].1 == current && is_stage(
                    topology@,
                    levels@,
                    links@[j].0,
                    hops,
                ) ==> (best matches Some(node) && node <= links@[j].0),
        decreases links@.len() - i,
    {
        let (a, b) = links[i];
        proof {
            assert(links@.contains(links@[i as int]));
            assert(ordered(a, b) == (a, b));
            assert(ordered(b, a) == (a, b));
        }
        if a == current && stage_at(topology, levels, b, hops) {
            match best {
                Some(node) => {
                    if b < node {
                        best = Some(b);
                    }
                },
                None => {
                    best = Some(b);
                },
            }
        }
        if b == current && stage_at(topology, levels, a, hops) {
            match best {
                Some(node) => {
                    if a < node {
                        best = Some(a);
                    }
                },
                None => {
                    best = Some(a);
                },
            }
        }
        i = i + 1;
    }
    proof {
        assert forall|other: NodeId|
            topology@.linked(current, other) && #[trigger] is_stage(
                topology@,
                levels@,
                other,
                hops,
            ) implies (best matches Some(node) && node <= other) by {
            assert(links@.contains(ordered(current, other)));
            let j = choose|j: int| 0 <= j < links@.len() && links@[j] == ordered(current, other);
            assert(links@[j].0 == current && links@[j].1 == other || links@[j].0 == other
                && links@[j].1 == current);
        }
    }
    best
}

/// The route under construction is no worse than `other` as far as it goes:
/// it is the start of `other`, or names the lower node where they first
/// differ.
spec fn leads(route: Seq<NodeId>, other: Seq<NodeId>) -> bool {
    route == other.take(route.len() as int) || exists|k: int| differs_lower_at(route, other, k)
}

/// Putting the least next hop on the route keeps it no worse than any
/// shortest route.
proof fn lemma_leads_on(
    topology: TopologyView,
    source: NodeId,
    destination: NodeId,
    levels: Seq<Option<u8>>,
    route: Seq<NodeId>,
    remaining: u8,
    next: NodeId,
    other: Seq<NodeId>,
)
    requires
        forall|upto: int| #[trigger] settled(topology, destination, levels, upto),
        route.len() >= 1,
        remaining >= 1,
        levels[route.last() as int] == Some(remaining),
        is_route(topology, source, destination, other),
        other.len() == route.len() + remaining,
        leads(route, other),
        forall|node: NodeId|
            topology.linked(route.last(), node) && #[trigger] is_stage(
                topology,
                levels,
                node,
                (remaining - 1) as u8,
            ) ==> next <= node,
    ensures
        leads(route.push(next), other),
{
    let longer = route.push(next);
    let n = route.len() as int;
    if route == other.take(n) {
        let current = route.last();
        assert(other[n - 1] == other.take(n)[n - 1]);
        let rest = other.subrange(n - 1, other.len() as int);
        lemma_tail(topology, other, n - 1);
        assert(reaches_in(topology, destination, current, remaining as int, rest));
        assert(settled(topology, destination, levels, remaining as int));
        lemma_second_node(
            topology,
            destination,
            levels,
            remaining as int,
            current,
            remaining as int,
            rest,
        );
        assert(rest[1] == other[n]);
        assert(next <= other[n]);
        if next == other[n] {
            assert(longer =~= other.take(n + 1));
        } else {
            assert forall|j: int| 0 <= j < n implies longer[j] == other[j] by {
                assert(other[j] == other.take(n)[j]);
            }
            assert(differs_lower_at(longer, other, n));
        }
    } else {
        let k = choose|k: int| differs_lower_at(route, other, k);
        assert(differs_lower_at(longer, other, k));
    }
}

/// Computes the route from `source` to `destination` through the discovered
/// graph.
///
/// The route is the shortest hop sequence over known links whose inner nodes
/// are all drones; among several of that length it is the one that names the
/// lowest node where they first differ. Where the store does not know the
/// destination, or no such hop sequence exists, there is no route.
pub fn compute_route(topology: &Topology, source: NodeId, destination: NodeId) -> (result: Result<
    Vec<NodeId>,
    ProtocolError,
>)
    ensures
        match result {
            Ok(route) => is_route_answer(
                topology@,
                source,
                destination,
                Ok::<Seq<NodeId>, ProtocolError>(route@),
            ),
            Err(e) => is_route_answer(
                topology@,
                source,
                destination,
                Err::<Seq<NodeId>, ProtocolError>(e),
            ),
        },
{
    if topology.node_type(destination).is_none() {
        return Err(ProtocolError::NoRouteFound);
    }
    let links = topology.edges();
    let levels = hop_counts(topology, links, destination);
    let total: u8 = match levels[source as usize] {
        Some(total) => total,
        None => {
            proof {
                assert forall|other: Seq<NodeId>| !#[trigger] is_route(
                    topology@,
                    source,
                    destination,
                    other,
                ) by {
                    if is_route(topology@, source, destination, other) {
                        let hops = other.len() - 1;
                        assert(settled(topology@, destination, levels@, hops));
                        assert(reaches_in(topology@, destination, source, hops, other));
                        assert(reachable_in(topology@, destination, source, hops));
                    }
                }
            }
            return Err(ProtocolError::NoRouteFound);
        },
    };
    let mut route: Vec<NodeId> = Vec::new();
    route.push(source);
    let mut current: NodeId = source;
    let mut remaining: u8 = total;
    proof {
        assert forall|other: Seq<NodeId>|
            #[trigger] is_route(topology@, source, destination, other) && other.len() == total
                + 1 implies leads(route@, other) by {
            assert(route@ =~= other.take(1));
        }
    }
    while remaining > 0
        invariant
            lists_links(links@, topology@),
            forall|upto: int| #[trigger] settled(topology@, destination, levels@, upto),
            route@.len() >= 1,
            route@.len() + remaining == total + 1,
            route@[0] == source,
            route@.last() == current,
            levels@[current as int] == Some(remaining),
            forall|i: int|
                #![trigger route@[i]]
                0 <= i < route@.len() - 1 ==> topology@.linked(route@[i], route@[i + 1]),
            forall|i: int|
                #![trigger route@[i]]
                0 < i < route@.len() - 1 ==> topology@.is_drone(route@[i]),
            remaining > 0 && route@.len() > 1 ==> topology@.is_drone(current),
            forall|other: Seq<NodeId>|
                #[trigger] is_route(topology@, source, destination, other) && other.len() == total
                    + 1 ==> leads(route@, other),
        decreases remaining,
    {
        let ghost before = route@;
        let found = least_next_hop(topology, links, &levels, current, remaining - 1);
        proof {
            assert(settled(topology@, destination, levels@, remaining as int));
            let far: int = remaining as int;
            let path = choose|path: Seq<NodeId>|
                reaches_in(topology@, destination, current, far, path);
            lemma_second_node(
                topology@,
                destination,
                levels@,
                remaining as int,
                current,
                remaining as int,
                path,
            );
        }
        let next = match found {
            Some(next) => next,
            None => {
                return Err(ProtocolError::NoRouteFound);
            },
        };
        proof {
            assert forall|other: Seq<NodeId>|
                #[trigger] is_route(topology@, source, destination, other) && other.len() == total
                    + 1 implies leads(before.push(next), other) by {
                lemma_leads_on(
                    topology@,
                    source,
                    destination,
                    levels@,
                    before,
                    remaining,
                    next,
                    other,
                );
            }
        }
        route.push(next);
        current = next;
        remaining = remaining - 1;
    }
    proof {
        assert(settled(topology@, destination, levels@, 0));
        let at_end = choose|path: Seq<NodeId>|
            reaches_in(topology@, destination, current, 0, path);
        assert(current == destination);
        assert(is_route(topology@, source, destination, route@));
        assert forall|other: Seq<NodeId>| #[trigger]
            is_route(topology@, source, destination, other) implies route@.len() <= other.len()
            && (other.len() == route@.len() ==> lex_le(route@, other)) by {
            let hops = other.len() - 1;
            assert(settled(topology@, destination, levels@, hops));
            assert(reaches_in(topology@, destination, source, hops, other));
            assert(reachable_in(topology@, destination, source, hops));
            if other.len() == route@.len() {
                assert(leads(route@, other));
                assert(other.take(other.len() as int) =~= other);
            }
        }
    }
    Ok(route)
}

/// Determinism: an answer is fixed by the store, the source and the
/// destination. Two answers to one question are the same answer.
pub proof fn lemma_route_answer_unique(
    topology: TopologyView,
    source: NodeId,
    destination: NodeId,
    first: Result<Seq<NodeId>, ProtocolError>,
    second: Result<Seq<NodeId>, ProtocolError>,
)
    requires
        is_route_answer(topology, source, destination, first),
        is_route_answer(topology, source, destination, second),
    ensures
        first == second,
{
    match (first, second) {
        (Ok(a), Ok(b)) => {
            assert(is_route(topology, source, destination, a));
            assert(is_route(topology, source, destination, b));
            assert(a.len() == b.len());
            assert(lex_le(a, b) && lex_le(b, a));
            if a != b {
                let k = choose|k: int| differs_lower_at(a, b, k);
                let m = choose|m: int| differs_lower_at(b, a, m);
                assert(false);
            }
        },
        (Ok(a), Err(_)) => {
            assert(is_route(topology, source, destination, a));
        },
        (Err(_), Ok(b)) => {
            assert(is_route(topology, source, destination, b));
        },
        (Err(_), Err(_)) => {},
    }
}

/// No route relays through a client or a server: every node strictly inside
/// an admissible route is a drone.
pub proof fn lemma_route_relays_through_drones(
    topology: TopologyView,
    source: NodeId,
    destination: NodeId,
    path: Seq<NodeId>,
)
    requires
        is_route(topology, source, destination, path),
    ensures
        forall|i: int|
            0 < i < path.len() - 1 ==> topology.knows(#[trigger] path[i]) && topology.nodes[path[i]]
                == NodeType::Drone,
        forall|i: int|
            0 < i < path.len() - 1 ==> topology.nodes[#[trigger] path[i]] != NodeType::Client
                && topology.nodes[path[i]] != NodeType::Server,
{
    assert forall|i: int| 0 < i < path.len() - 1 implies topology.knows(#[trigger] path[i])
        && topology.nodes[path[i]] == NodeType::Drone by {
        assert(topology.is_drone(path[i]));
    }
}

} // verus!
