//! Search for a chain of routes with the fewest hops.

use crate::flights::{Flights, FlightsView};
use std::collections::HashMap;
use vstd::prelude::*;
use vstd::set_lib::{lemma_int_range, set_int_range};

verus! {

impl FlightsView {
    /// A flight goes from `from` to `to`: `from` is an airport of the graph
    /// and has `to` among its neighbors. Whether `to` is an airport of the
    /// graph does not matter; if it is none, no flight goes on from it.
    pub open spec fn links(self, from: i32, to: i32) -> bool {
        self.airports.contains_key(from) && self.airports[from].connections.contains(to)
    }

    /// `route` is a chain of flights from `src` to `dst`, told backwards:
    /// each edge is an airport with the airport before it, the first edge
    /// holds `dst`, each further edge holds the airport before the last one,
    /// and the last edge ends in `src`. From an airport to itself the chain
    /// with no edge is a route.
    pub open spec fn is_route(self, src: i32, dst: i32, route: Seq<(i32, i32)>) -> bool {
        if route.len() == 0 {
            src == dst
        } else {
            &&& route[0].0 == dst
            &&& route.last().1 == src
            &&& forall|i: int|
                0 <= i < route.len() ==> self.links((#[trigger] route[i]).1, route[i].0)
            &&& forall|i: int| 0 < i < route.len() ==> (#[trigger] route[i]).0 == route[i - 1].1
        }
    }

    /// Both ends of every edge of `route` are airports of the graph.
    pub open spec fn passes_airports(self, route: Seq<(i32, i32)>) -> bool {
        forall|i: int|
            0 <= i < route.len() ==> self.airports.contains_key((#[trigger] route[i]).0)
                && self.airports.contains_key(route[i].1)
    }

    /// Some chain of flights leads from `src` to `dst`.
    pub open spec fn connected(self, src: i32, dst: i32) -> bool {
        exists|route: Seq<(i32, i32)>| self.is_route(src, dst, route)
    }

    /// `route` leads from `src` to `dst`, and no route between them has fewer
    /// edges.
    pub open spec fn is_shortest_route(self, src: i32, dst: i32, route: Seq<(i32, i32)>) -> bool {
        &&& self.is_route(src, dst, route)
        &&& forall|other: Seq<(i32, i32)>| #[trigger]
            self.is_route(src, dst, other) ==> route.len() <= other.len()
    }

    /// The fewest hops by which `dst` is reached from `src`, where the two
    /// are connected: the number of edges of a shortest route.
    pub open spec fn fewest_hops(self, src: i32, dst: i32) -> nat {
        (choose|route: Seq<(i32, i32)>| self.is_shortest_route(src, dst, route)).len()
    }
}

impl Flights {
    /// Finds a chain of flights from `src` to `dst` with the fewest hops, by
    /// a breadth-first search from `src`.
    ///
    /// The result lists the edges from the destination back to the source,
    /// each as an airport with the airport before it. It is empty when no
    /// chain of flights connects the two, and when they are the same airport.
    /// Among several shortest chains any one may be returned.
    pub fn breadth_first_search(&self, src: i32, dst: i32) -> (route: Vec<(i32, i32)>)
        ensures
            self@.connected(src, dst) ==> self@.is_shortest_route(src, dst, route@),
            self@.connected(src, dst) ==> route@.len() == self@.fewest_hops(src, dst),
            !self@.connected(src, dst) ==> route@.len() == 0,
    {
        let ghost g = self@;
        if src == dst {
            proof {
                let none = Seq::<(i32, i32)>::empty();
                assert(g.is_route(src, dst, none));
                lemma_shortest_route_has_fewest_hops(g, src, dst, none);
            }
            return Vec::new();
        }
        if self.airport(src).is_none() {
            assert forall|r: Seq<(i32, i32)>| !g.is_route(src, dst, r) by {
                if g.is_route(src, dst, r) {
                    lemma_route_leaves_an_airport(g, src, dst, r);
                }
            }
            return Vec::new();
        }
        let mut parent: HashMap<i32, i32> = HashMap::new();
        let mut order: Vec<i32> = Vec::new();
        parent.insert(src, src);
        order.push(src);
        let mut head: usize = 0;
        let ghost mut dist: Map<i32, nat> = Map::empty().insert(src, 0nat);
        let ghost mut unseen: Set<int> = set_int_range(i32::MIN as int, i32::MAX + 1).remove(
            src as int,
        );
        proof {
            lemma_int_range(i32::MIN as int, i32::MAX + 1);
            let start = Progress { order: order@, head: 0, parent: parent@, dist };
            assert(!start.done_with(src));
            assert forall|v: i32| #[trigger]
                start.parent.contains_key(v) implies start.order.contains(v) by {
                assert(start.order[0] == v);
            }
            assert(sound(g, src, start));
        }
        while head < order.len()
            invariant
                g == self@,
                src != dst,
                head <= order.len(),
                sound(g, src, Progress { order: order@, head: head as int, parent: parent@, dist }),
                !parent@.contains_key(dst),
                unseen.finite(),
                forall|v: i32| !(#[trigger] parent@.contains_key(v)) ==> unseen.contains(v as int),
            decreases unseen.len() + order.len() - head,
        {
            let node: i32 = order[head];
            let ghost total = unseen.len() + order.len();
            match self.airport(node) {
                Some(airport) => {
                    let neighbors = airport.connections();
                    let mut k: usize = 0;
                    while k < neighbors.len()
                        invariant
                            g == self@,
                            src != dst,
                            head < order.len(),
                            node == order[head as int],
                            g.airports.contains_key(node),
                            neighbors@ == g.airports[node].connections,
                            k <= neighbors.len(),
                            sound(
                                g,
                                src,
                                Progress {
                                    order: order@,
                                    head: head as int,
                                    parent: parent@,
                                    dist,
                                },
                            ),
                            forall|i: int|
                                0 <= i < k ==> parent@.contains_key(#[trigger] neighbors[i]),
                            !parent@.contains_key(dst),
                            unseen.finite(),
                            forall|v: i32|
                                !(#[trigger] parent@.contains_key(v)) ==> unseen.contains(v as int),
                            unseen.len() + order.len() == total,
                        decreases neighbors.len() - k,
                    {
                        let next: i32 = neighbors[k];
                        if !parent.contains_key(&next) {
                            proof {
                                let now = Progress {
                                    order: order@,
                                    head: head as int,
                                    parent: parent@,
                                    dist,
                                };
                                assert(neighbors@.contains(next));
                                lemma_reach(g, src, now, next);
                                dist = dist.insert(next, dist[node] + 1);
                                assert(unseen.contains(next as int));
                                unseen = unseen.remove(next as int);
                            }
                            parent.insert(next, node);
                            order.push(next);
                            if next == dst {
                                let route = trace(
                                    &parent,
                                    src,
                                    dst,
                                    Ghost(g),
                                    Ghost(order@),
                                    Ghost(head as int),
                                    Ghost(dist),
                                );
                                proof {
                                    lemma_shortest_route_has_fewest_hops(g, src, dst, route@);
                                }
                                return route;
                            }
                        }
                        k = k + 1;
                    }
                    proof {
                        let now = Progress {
                            order: order@,
                            head: head as int,
                            parent: parent@,
                            dist,
                        };
                        assert forall|w: i32| #[trigger]
                            g.links(node, w) implies parent@.contains_key(w) by {
                            let i = choose|i: int| 0 <= i < neighbors@.len() && neighbors@[i] == w;
                            assert(parent@.contains_key(neighbors[i]));
                        }
                        lemma_advance(g, src, now);
                    }
                },
                None => {
                    proof {
                        let now = Progress {
                            order: order@,
                            head: head as int,
                            parent: parent@,
                            dist,
                        };
                        lemma_advance(g, src, now);
                    }
                },
            }
            head = head + 1;
        }
        proof {
            let end = Progress { order: order@, head: head as int, parent: parent@, dist };
            assert forall|r: Seq<(i32, i32)>| !g.is_route(src, dst, r) by {
                if g.is_route(src, dst, r) {
                    lemma_exhausted(g, src, end, dst, r);
                }
            }
        }
        Vec::new()
    }
}

/// Walks from `dst` back to `src` by the parents that a search recorded, and
/// lists the edges that it passes.
fn trace(
    parent: &HashMap<i32, i32>,
    src: i32,
    dst: i32,
    Ghost(g): Ghost<FlightsView>,
    Ghost(order): Ghost<Seq<i32>>,
    Ghost(head): Ghost<int>,
    Ghost(dist): Ghost<Map<i32, nat>>,
) -> (route: Vec<(i32, i32)>)
    requires
        sound(g, src, Progress { order, head, parent: parent@, dist }),
        parent@.contains_key(dst),
    ensures
        g.is_shortest_route(src, dst, route@),
{
    let mut route: Vec<(i32, i32)> = Vec::new();
    let mut at: i32 = dst;
    while at != src
        invariant
            sound(g, src, Progress { order, head, parent: parent@, dist }),
            parent@.contains_key(at),
            route@.len() + dist[at] == dist[dst],
            g.is_route(at, dst, route@),
        decreases dist[at],
    {
        let before: i32 = match parent.get(&at) {
            Some(before) => *before,
            None => at,
        };
        let ghost walked = route@;
        route.push((at, before));
        proof {
            assert(before == parent@[at]);
            assert(forall|i: int| 0 <= i < walked.len() ==> route@[i] == walked[i]);
            assert(route@[walked.len() as int] == (at, before));
            assert forall|i: int| 0 <= i < route@.len() implies g.links(
                (#[trigger] route@[i]).1,
                route@[i].0,
            ) by {
                if i < walked.len() {
                    assert(g.links(walked[i].1, walked[i].0));
                }
            }
            assert forall|i: int| 0 < i < route@.len() implies (#[trigger] route@[i]).0 == route@[i
                - 1].1 by {
                if i < walked.len() {
                    assert(walked[i].0 == walked[i - 1].1);
                }
            }
        }
        at = before;
    }
    route
}

/// A shortest route has as many edges as the fewest hops between its ends.
pub proof fn lemma_shortest_route_has_fewest_hops(
    g: FlightsView,
    src: i32,
    dst: i32,
    route: Seq<(i32, i32)>,
)
    requires
        g.is_shortest_route(src, dst, route),
    ensures
        route.len() == g.fewest_hops(src, dst),
{
    let other = choose|other: Seq<(i32, i32)>| g.is_shortest_route(src, dst, other);
    lemma_shortest_routes_agree(g, src, dst, route, other);
}

/// Two shortest routes between the same airports have the same number of
/// edges.
pub proof fn lemma_shortest_routes_agree(
    g: FlightsView,
    src: i32,
    dst: i32,
    first: Seq<(i32, i32)>,
    second: Seq<(i32, i32)>,
)
    requires
        g.is_shortest_route(src, dst, first),
        g.is_shortest_route(src, dst, second),
    ensures
        first.len() == second.len(),
{
}

/// A route between two different airports has an edge, and it starts at an
/// airport of the graph: nothing can be reached from what is no airport.
pub proof fn lemma_route_leaves_an_airport(
    g: FlightsView,
    src: i32,
    dst: i32,
    route: Seq<(i32, i32)>,
)
    requires
        g.is_route(src, dst, route),
        src != dst,
    ensures
        route.len() > 0,
        g.airports.contains_key(src),
{
    assert(g.links(route.last().1, route.last().0));
}

/// A route to an airport of the graph passes airports of the graph only:
/// both ends of each of its edges are airports.
pub proof fn lemma_route_passes_airports(
    g: FlightsView,
    src: i32,
    dst: i32,
    route: Seq<(i32, i32)>,
)
    requires
        g.is_route(src, dst, route),
        g.airports.contains_key(dst),
    ensures
        g.passes_airports(route),
{
    assert forall|i: int| 0 <= i < route.len() implies g.airports.contains_key(
        (#[trigger] route[i]).0,
    ) && g.airports.contains_key(route[i].1) by {
        assert(g.links(route[i].1, route[i].0));
        if i > 0 {
            assert(g.links(route[i - 1].1, route[i - 1].0));
        }
    }
}

/// How far a search from one airport has come.
struct Progress {
    /// The airports reached so far, in the order in which they were reached.
    order: Seq<i32>,
    /// How many airports at the head of `order` the search is done with:
    /// all their neighbors are reached.
    head: int,
    /// For each airport reached, the airport from which it was reached; for
    /// the source, the source itself.
    parent: Map<i32, i32>,
    /// For each airport reached, the number of flights on the way by which it
    /// was reached.
    dist: Map<i32, nat>,
}

impl Progress {
    /// The progress after `next` was reached from the airport at the head of
    /// those that the search is not done with.
    spec fn reach(self, next: i32) -> Progress {
        Progress {
            order: self.order.push(next),
            head: self.head,
            parent: self.parent.insert(next, self.order[self.head]),
            dist: self.dist.insert(next, self.dist[self.order[self.head]] + 1),
        }
    }

    /// The progress after the search is done with one more airport.
    spec fn advance(self) -> Progress {
        Progress { head: self.head + 1, ..self }
    }

    /// The search is done with `x`.
    spec fn done_with(self, x: i32) -> bool {
        exists|i: int| 0 <= i < self.head && #[trigger] self.order[i] == x
    }
}

/// What holds of a search from `src` at every moment.
spec fn sound(g: FlightsView, src: i32, p: Progress) -> bool {
    &&& 0 <= p.head <= p.order.len()
    &&& p.order.len() > 0
    &&& p.order[0] == src
    &&& p.dist[src] == 0
    // `order` lists what is reached.
    &&& forall|i: int| 0 <= i < p.order.len() ==> p.parent.contains_key(#[trigger] p.order[i])
    &&& forall|v: i32| #[trigger] p.parent.contains_key(v) ==> p.order.contains(v)
    // Airports are reached in the order of their distance, and none lies
    // more than one flight beyond the one that the search works on.
    &&& forall|i: int, j: int|
        0 <= i <= j < p.order.len() ==> p.dist[#[trigger] p.order[i]]
            <= p.dist[#[trigger] p.order[j]]
    &&& forall|j: int|
        p.head <= j < p.order.len() ==> p.dist[#[trigger] p.order[j]] <= p.dist[p.order[p.head]]
            + 1
    // Each airport but the source was reached by a flight from its parent,
    // which lies one flight nearer.
    &&& forall|v: i32| #[trigger]
        p.parent.contains_key(v) && v != src ==> {
            &&& g.links(p.parent[v], v)
            &&& p.parent.contains_key(p.parent[v])
            &&& p.dist[v] == p.dist[p.parent[v]] + 1
        }
    // Where a flight leaves an airport that the search is done with, it
    // leads to an airport that is reached.
    &&& forall|x: i32, w: i32|
        p.done_with(x) && #[trigger] g.links(x, w) ==> p.parent.contains_key(w)
    // No route to an airport is shorter than the way by which it was reached.
    &&& forall|v: i32, r: Seq<(i32, i32)>|
        p.parent.contains_key(v) && #[trigger] g.is_route(src, v, r) ==> p.dist[v] <= r.len()
}

/// A route without its first edge is a route to the airport before the
/// destination, from which a flight goes to the destination.
proof fn lemma_route_tail(g: FlightsView, src: i32, dst: i32, r: Seq<(i32, i32)>)
    requires
        g.is_route(src, dst, r),
        r.len() > 0,
    ensures
        g.is_route(src, r[0].1, r.skip(1)),
        g.links(r[0].1, dst),
{
    let rest = r.skip(1);
    assert(forall|i: int| 0 <= i < rest.len() ==> rest[i] == r[i + 1]);
    if rest.len() > 0 {
        assert(rest[0] == r[1]);
        assert(rest.last() == r.last());
        assert forall|i: int| 0 <= i < rest.len() implies g.links(
            (#[trigger] rest[i]).1,
            rest[i].0,
        ) by {
            assert(rest[i] == r[i + 1]);
        }
        assert forall|i: int| 0 < i < rest.len() implies (#[trigger] rest[i]).0
            == rest[i - 1].1 by {
            assert(rest[i] == r[i + 1]);
            assert(rest[i - 1] == r[i]);
        }
    }
}

/// A route that ends at an airport that the search is not done with is at
/// least as long as the way to the airport that the search works on.
proof fn lemma_frontier(g: FlightsView, src: i32, p: Progress, x: i32, r: Seq<(i32, i32)>)
    requires
        sound(g, src, p),
        p.head < p.order.len(),
        g.is_route(src, x, r),
        !p.done_with(x),
    ensures
        p.dist[p.order[p.head]] <= r.len(),
    decreases r.len(),
{
    if r.len() == 0 {
        if p.head > 0 {
            assert(p.order[0] == x);
        }
    } else {
        let before = r[0].1;
        lemma_route_tail(g, src, x, r);
        if p.done_with(before) {
            assert(p.parent.contains_key(x));
            let j = choose|j: int| 0 <= j < p.order.len() && p.order[j] == x;
            assert(p.order[j] == x);
            if j < p.head {
                assert(p.done_with(x));
            }
            assert(p.dist[p.order[p.head]] <= p.dist[p.order[j]]);
        } else {
            lemma_frontier(g, src, p, before, r.skip(1));
        }
    }
}

/// Reaching a new airport by a flight from the one that the search works on
/// keeps the search sound.
proof fn lemma_reach(g: FlightsView, src: i32, p: Progress, next: i32)
    requires
        sound(g, src, p),
        p.head < p.order.len(),
        g.links(p.order[p.head], next),
        !p.parent.contains_key(next),
    ensures
        sound(g, src, p.reach(next)),
{
    let q = p.reach(next);
    let node = p.order[p.head];
    let n = p.order.len() as int;
    assert(p.parent.contains_key(src)) by {
        assert(p.parent.contains_key(p.order[0]));
    }
    assert(p.parent.contains_key(node));
    assert(forall|i: int| 0 <= i < n ==> q.order[i] == p.order[i]);
    assert(q.order[n] == next);
    assert forall|i: int| 0 <= i < q.order.len() implies q.parent.contains_key(
        #[trigger] q.order[i],
    ) by {
        if i < n {
            assert(p.parent.contains_key(p.order[i]));
        }
    }
    assert forall|v: i32| #[trigger] q.parent.contains_key(v) implies q.order.contains(v) by {
        if v == next {
            assert(q.order[n] == v);
        } else {
            let i = choose|i: int| 0 <= i < n && p.order[i] == v;
            assert(q.order[i] == v);
        }
    }
    assert forall|i: int| 0 <= i < q.order.len() implies q.dist[#[trigger] q.order[i]] == (if i
        < n {
        p.dist[p.order[i]]
    } else {
        p.dist[node] + 1
    }) by {
        if i < n {
            assert(p.parent.contains_key(p.order[i]));
        }
    }
    assert forall|i: int, j: int| 0 <= i <= j < q.order.len() implies q.dist[#[trigger] q.order[i]]
        <= q.dist[#[trigger] q.order[j]] by {
        if j < n {
            assert(p.dist[p.order[i]] <= p.dist[p.order[j]]);
        } else if i < n {
            if i < p.head {
                assert(p.dist[p.order[i]] <= p.dist[p.order[p.head]]);
            } else {
                assert(p.dist[p.order[i]] <= p.dist[p.order[p.head]] + 1);
            }
        }
    }
    assert forall|j: int| q.head <= j < q.order.len() implies q.dist[#[trigger] q.order[j]]
        <= q.dist[q.order[q.head]] + 1 by {
        if j < n {
            assert(p.dist[p.order[j]] <= p.dist[p.order[p.head]] + 1);
        }
    }
    assert forall|v: i32| #[trigger] q.parent.contains_key(v) && v != src implies {
        &&& g.links(q.parent[v], v)
        &&& q.parent.contains_key(q.parent[v])
        &&& q.dist[v] == q.dist[q.parent[v]] + 1
    } by {
        if v != next {
            assert(p.parent.contains_key(v));
            assert(p.parent.contains_key(p.parent[v]));
        }
    }
    assert forall|x: i32, w: i32|
        q.done_with(x) && #[trigger] g.links(x, w) implies q.parent.contains_key(w) by {
        let i = choose|i: int| 0 <= i < q.head && #[trigger] q.order[i] == x;
        assert(p.order[i] == x);
        assert(p.done_with(x));
    }
    assert forall|v: i32, r: Seq<(i32, i32)>|
        q.parent.contains_key(v) && #[trigger] g.is_route(src, v, r) implies q.dist[v]
        <= r.len() by {
        if v == next {
            lemma_route_tail(g, src, v, r);
            let before = r[0].1;
            if p.done_with(before) {
                assert(p.parent.contains_key(next));
            }
            lemma_frontier(g, src, p, before, r.skip(1));
        } else {
            assert(p.parent.contains_key(v));
        }
    }
}

/// When every flight from the airport that the search works on leads to an
/// airport that is reached, the search is done with it.
proof fn lemma_advance(g: FlightsView, src: i32, p: Progress)
    requires
        sound(g, src, p),
        p.head < p.order.len(),
        forall|w: i32| #[trigger] g.links(p.order[p.head], w) ==> p.parent.contains_key(w),
    ensures
        sound(g, src, p.advance()),
{
    let q = p.advance();
    assert forall|j: int| q.head <= j < q.order.len() implies q.dist[#[trigger] q.order[j]]
        <= q.dist[q.order[q.head]] + 1 by {
        assert(p.dist[p.order[j]] <= p.dist[p.order[p.head]] + 1);
        assert(p.dist[p.order[p.head]] <= p.dist[p.order[q.head]]);
    }
    assert forall|x: i32, w: i32|
        q.done_with(x) && #[trigger] g.links(x, w) implies q.parent.contains_key(w) by {
        let i = choose|i: int| 0 <= i < q.head && #[trigger] q.order[i] == x;
        if i < p.head {
            assert(p.done_with(x));
        }
    }
}

/// When the search is done with every airport that it reached, it has
/// reached every airport to which a route leads.
proof fn lemma_exhausted(g: FlightsView, src: i32, p: Progress, x: i32, r: Seq<(i32, i32)>)
    requires
        sound(g, src, p),
        p.head == p.order.len(),
        g.is_route(src, x, r),
    ensures
        p.parent.contains_key(x),
    decreases r.len(),
{
    if r.len() == 0 {
        assert(p.parent.contains_key(p.order[0]));
    } else {
        let before = r[0].1;
        lemma_route_tail(g, src, x, r);
        lemma_exhausted(g, src, p, before, r.skip(1));
        let i = choose|i: int| 0 <= i < p.order.len() && p.order[i] == before;
        assert(p.order[i] == before);
        assert(p.done_with(before));
    }
}

} // verus!
