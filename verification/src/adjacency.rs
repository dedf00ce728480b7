//! Neighbors: which airports the routes put one flight away from an airport.

use std::collections::HashMap;
use vstd::prelude::*;

verus! {

/// The neighbors that the routes give to the airport `id`, in the order of
/// the routes: for each route that starts at the airport its destination, and
/// for each route that ends there its source. Every route counts in both
/// directions.
pub open spec fn neighbors_in(routes: Seq<(i32, i32)>, id: i32) -> Seq<i32>
    decreases routes.len(),
{
    if routes.len() == 0 {
        Seq::empty()
    } else {
        let before = neighbors_in(routes.drop_last(), id);
        let route = routes.last();
        let outward = if route.0 == id {
            before.push(route.1)
        } else {
            before
        };
        if route.1 == id {
            outward.push(route.0)
        } else {
            outward
        }
    }
}

/// The routes, sorted by the airports that they touch: for each airport the
/// list of its neighbors, made in one pass over the routes.
pub struct RouteIndex {
    lists: HashMap<i32, Vec<i32>>,
    routes: Ghost<Seq<(i32, i32)>>,
}

/// The list that `lists` holds for `id`: empty where it holds none.
spec fn list_of(lists: Map<i32, Vec<i32>>, id: i32) -> Seq<i32> {
    if lists.contains_key(id) {
        lists[id]@
    } else {
        Seq::empty()
    }
}

impl View for RouteIndex {
    type V = Seq<(i32, i32)>;

    /// The routes that the index was made from.
    closed spec fn view(&self) -> Seq<(i32, i32)> {
        self.routes@
    }
}

impl RouteIndex {
    #[verifier::type_invariant]
    spec fn lists_hold_the_neighbors(self) -> bool {
        forall|id: i32| #[trigger] list_of(self.lists@, id) == neighbors_in(self.routes@, id)
    }

    /// Sorts the routes by the airports that they touch.
    pub fn build(routes: &Vec<(i32, i32)>) -> (index: RouteIndex)
        ensures
            index@ == routes@,
    {
        let mut lists: HashMap<i32, Vec<i32>> = HashMap::new();
        let mut i: usize = 0;
        assert(forall|id: i32| neighbors_in(routes@.take(0), id) =~= Seq::<i32>::empty());
        while i < routes.len()
            invariant
                i <= routes.len(),
                forall|id: i32| #[trigger]
                    list_of(lists@, id) == neighbors_in(routes@.take(i as int), id),
            decreases routes.len() - i,
        {
            let route = routes[i];
            assert(routes@.take(i + 1).drop_last() =~= routes@.take(i as int));
            append(&mut lists, route.0, route.1);
            append(&mut lists, route.1, route.0);
            i = i + 1;
        }
        assert(routes@.take(routes.len() as int) =~= routes@);
        RouteIndex { lists, routes: Ghost(routes@) }
    }

    /// The neighbors of the airport `id`, in the order of the routes.
    pub fn neighbors(&self, id: i32) -> (found: Vec<i32>)
        ensures
            found@ == neighbors_in(self@, id),
    {
        proof {
            use_type_invariant(self);
        }
        assert(list_of(self.lists@, id) == neighbors_in(self.routes@, id));
        match self.lists.get(&id) {
            Some(list) => {
                let found = list.clone();
                assert(found@ =~= list@);
                found
            },
            None => Vec::new(),
        }
    }
}

/// Puts `value` at the end of the list that `lists` holds for `key`.
fn append(lists: &mut HashMap<i32, Vec<i32>>, key: i32, value: i32)
    ensures
        forall|id: i32| #[trigger]
            list_of(final(lists)@, id) == if id == key {
                list_of(old(lists)@, id).push(value)
            } else {
                list_of(old(lists)@, id)
            },
{
    let mut list: Vec<i32> = match lists.remove(&key) {
        Some(list) => list,
        None => Vec::new(),
    };
    list.push(value);
    lists.insert(key, list);
}

/// An airport is a neighbor of another exactly when some route joins the
/// two, in either direction.
pub proof fn lemma_neighbors_are_route_ends(routes: Seq<(i32, i32)>, a: i32, b: i32)
    ensures
        neighbors_in(routes, a).contains(b) <==> exists|i: int|
            0 <= i < routes.len() && (#[trigger] routes[i] == (a, b) || routes[i] == (b, a)),
    decreases routes.len(),
{
    if routes.len() == 0 {
        assert(neighbors_in(routes, a) =~= Seq::<i32>::empty());
    } else {
        let head = routes.drop_last();
        let route = routes.last();
        let before = neighbors_in(head, a);
        let outward = if route.0 == a {
            before.push(route.1)
        } else {
            before
        };
        let all = neighbors_in(routes, a);
        lemma_neighbors_are_route_ends(head, a, b);
        let joined_before = exists|i: int|
            0 <= i < head.len() && (#[trigger] head[i] == (a, b) || head[i] == (b, a));
        let joined = exists|i: int|
            0 <= i < routes.len() && (#[trigger] routes[i] == (a, b) || routes[i] == (b, a));
        let joins = route == (a, b) || route == (b, a);
        assert(joined <==> joined_before || joins) by {
            if joined_before {
                let i = choose|i: int|
                    0 <= i < head.len() && (#[trigger] head[i] == (a, b) || head[i] == (b, a));
                assert(routes[i] == head[i]);
            }
            if joins {
                assert(routes[routes.len() - 1] == route);
            }
            if joined {
                let i = choose|i: int|
                    0 <= i < routes.len() && (#[trigger] routes[i] == (a, b) || routes[i] == (
                        b,
                        a,
                    ));
                if i < head.len() {
                    assert(head[i] == routes[i]);
                }
            }
        }
        assert(all.contains(b) <==> before.contains(b) || joins) by {
            if before.contains(b) {
                let k = choose|k: int| 0 <= k < before.len() && before[k] == b;
                assert(outward[k] == b);
                assert(all[k] == b);
            }
            if route == (a, b) {
                assert(outward[before.len() as int] == b);
                assert(all[before.len() as int] == b);
            }
            if route == (b, a) {
                assert(all[all.len() - 1] == b);
            }
            if all.contains(b) {
                let k = choose|k: int| 0 <= k < all.len() && all[k] == b;
                if k < before.len() {
                    assert(before[k] == b);
                }
            }
        }
    }
}

/// The routes make neighbors in both directions: where they give `b` to `a`
/// as a neighbor, they give `a` to `b`.
pub proof fn lemma_neighbors_mirror(routes: Seq<(i32, i32)>, a: i32, b: i32)
    ensures
        neighbors_in(routes, a).contains(b) <==> neighbors_in(routes, b).contains(a),
{
    lemma_neighbors_are_route_ends(routes, a, b);
    lemma_neighbors_are_route_ends(routes, b, a);
    if neighbors_in(routes, a).contains(b) {
        let i = choose|i: int|
            0 <= i < routes.len() && (#[trigger] routes[i] == (a, b) || routes[i] == (b, a));
        assert(routes[i] == (b, a) || routes[i] == (a, b));
    }
    if neighbors_in(routes, b).contains(a) {
        let i = choose|i: int|
            0 <= i < routes.len() && (#[trigger] routes[i] == (b, a) || routes[i] == (a, b));
        assert(routes[i] == (a, b) || routes[i] == (b, a));
    }
}

} // verus!
