//! Walks over a set of walkable tiles, and what it means for a stored route
//! to be a shortest one.

use vstd::prelude::*;
use crate::tile::{adjacent, lemma_adjacent_symmetric, lemma_manhattan_triangle, manhattan, TilePos};

verus! {

/// The set of tiles that occur in `tiles`.
pub open spec fn tile_set(tiles: Seq<TilePos>) -> Set<TilePos> {
    Set::new(|p: TilePos| tiles.contains(p))
}

/// Each tile of `tiles` is adjacent to the one that follows it.
pub open spec fn stepwise(tiles: Seq<TilePos>) -> bool {
    forall|i: int, j: int|
        0 <= i && j == i + 1 && j < tiles.len() ==> adjacent(#[trigger] tiles[i], #[trigger] tiles[j])
}

/// A walk is a non-empty sequence of walkable tiles in which each tile is
/// adjacent to the next.
pub open spec fn is_walk(ground: Set<TilePos>, walk: Seq<TilePos>) -> bool {
    &&& walk.len() >= 1
    &&& forall|i: int| 0 <= i < walk.len() ==> ground.contains(#[trigger] walk[i])
    &&& stepwise(walk)
}

/// `walk` leads from `from` to `to` over `ground`.
pub open spec fn connects(
    ground: Set<TilePos>,
    walk: Seq<TilePos>,
    from: TilePos,
    to: TilePos,
) -> bool {
    &&& is_walk(ground, walk)
    &&& walk[0] == from
    &&& walk[walk.len() - 1] == to
}

/// Some walk over `ground` leads from `from` to `to`.
pub open spec fn reachable(ground: Set<TilePos>, from: TilePos, to: TilePos) -> bool {
    exists|walk: Seq<TilePos>| connects(ground, walk, from, to)
}

/// A request from `from` to `to` can be served: both tiles exist and a walk
/// joins them.
pub open spec fn routable(ground: Set<TilePos>, from: TilePos, to: TilePos) -> bool {
    ground.contains(from) && ground.contains(to) && reachable(ground, from, to)
}

/// A route as it is stored: the goal first, then back towards the start, the
/// start itself left out. A request whose start is its goal has the route
/// that holds just that tile.
pub open spec fn is_route(
    ground: Set<TilePos>,
    start: TilePos,
    goal: TilePos,
    route: Seq<TilePos>,
) -> bool {
    &&& ground.contains(start)
    &&& route.len() >= 1
    &&& route[0] == goal
    &&& forall|i: int| 0 <= i < route.len() ==> ground.contains(#[trigger] route[i])
    &&& stepwise(route)
    &&& if start == goal {
        route.len() == 1
    } else {
        &&& adjacent(route[route.len() - 1], start)
        &&& forall|i: int| 0 <= i < route.len() ==> #[trigger] route[i] != start
    }
}

/// A route that takes no more steps than any walk from `start` to `goal`.
pub open spec fn is_shortest_route(
    ground: Set<TilePos>,
    start: TilePos,
    goal: TilePos,
    route: Seq<TilePos>,
) -> bool {
    &&& is_route(ground, start, goal, route)
    &&& start != goal ==> forall|walk: Seq<TilePos>| #[trigger]
        connects(ground, walk, start, goal) ==> route.len() <= walk.len() - 1
}

/// The tiles an actor passes when it follows `route` from `start`: the start,
/// then the stored tiles from the last to the first.
pub open spec fn travel(start: TilePos, route: Seq<TilePos>) -> Seq<TilePos> {
    seq![start] + route.reverse()
}

/// Following a route from a start that differs from the goal is a walk from
/// the start to the goal, with one step per stored tile.
pub proof fn lemma_route_travel(
    ground: Set<TilePos>,
    start: TilePos,
    goal: TilePos,
    route: Seq<TilePos>,
)
    requires
        is_route(ground, start, goal, route),
        start != goal,
    ensures
        connects(ground, travel(start, route), start, goal),
        travel(start, route).len() - 1 == route.len(),
{
    let t = travel(start, route);
    let n = route.len() as int;
    assert(t.len() == n + 1);
    assert(t[0] == start);
    assert forall|i: int| 1 <= i < t.len() implies #[trigger] t[i] == route[n - i] by {
        assert(t[i] == route.reverse()[i - 1]);
    }
    assert forall|i: int| 0 <= i < t.len() implies ground.contains(#[trigger] t[i]) by {
        if i > 0 {
            assert(t[i] == route[n - i]);
        }
    }
    assert forall|i: int, j: int| 0 <= i && j == i + 1 && j < t.len() implies adjacent(
        #[trigger] t[i],
        #[trigger] t[j],
    ) by {
        assert(t[j] == route[n - j]);
        if i == 0 {
            lemma_adjacent_symmetric(route[n - 1], start);
        } else {
            assert(t[i] == route[n - i]);
            assert(adjacent(route[n - j], route[n - i]));
            lemma_adjacent_symmetric(route[n - j], route[n - i]);
        }
    }
    assert(t[t.len() - 1] == route[0]);
}

/// Every route witnesses that its goal can be reached.
pub proof fn lemma_route_reaches(
    ground: Set<TilePos>,
    start: TilePos,
    goal: TilePos,
    route: Seq<TilePos>,
)
    requires
        is_route(ground, start, goal, route),
    ensures
        ground.contains(goal),
        reachable(ground, start, goal),
{
    assert(ground.contains(route[0]));
    if start == goal {
        let w = seq![start];
        assert(connects(ground, w, start, goal));
    } else {
        lemma_route_travel(ground, start, goal, route);
        assert(connects(ground, travel(start, route), start, goal));
    }
}

/// A walk cannot cover more Manhattan distance than it has steps.
pub proof fn lemma_walk_covers(ground: Set<TilePos>, walk: Seq<TilePos>, i: int, j: int)
    requires
        is_walk(ground, walk),
        0 <= i <= j < walk.len(),
    ensures
        manhattan(walk[i], walk[j]) <= j - i,
    decreases j - i,
{
    if i < j {
        lemma_walk_covers(ground, walk, i, j - 1);
        assert(adjacent(walk[j - 1], walk[j]));
        lemma_manhattan_triangle(walk[i], walk[j - 1], walk[j]);
    }
}

} // verus!
