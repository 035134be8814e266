//! What the router and the walker guarantee, stated over the functions that
//! their contracts use.

use vstd::prelude::*;
use crate::actor::{advanced, placed, requested, ActorView};
use crate::map::{grid, lemma_grid_tiles};
use crate::model::{chosen_route, lemma_chosen_route};
use crate::pathfinding::resolved;
use crate::tile::{adjacent, manhattan, TilePos};
use crate::walk::{
    connects, is_shortest_route, lemma_route_travel, lemma_walk_covers, reachable, routable,
    tile_set, travel,
};

verus! {

/// A request whose start is its goal is served exactly when that tile
/// exists, by the route that holds that one tile: following it moves the
/// actor nowhere else.
pub proof fn theorem_same_tile_request(tiles: Seq<TilePos>, tile: TilePos)
    requires
        tiles.len() <= usize::MAX,
    ensures
        tiles.contains(tile) ==> chosen_route(tiles, tile, tile) == Some(seq![tile]),
        !tiles.contains(tile) ==> chosen_route(tiles, tile, tile) is None,
{
    lemma_chosen_route(tiles, tile, tile);
    if tiles.contains(tile) {
        assert(connects(tile_set(tiles), seq![tile], tile, tile));
        assert(chosen_route(tiles, tile, tile)->0 =~= seq![tile]);
    }
}

/// A goal none of whose neighbours exists cannot be reached from any other
/// tile.
pub proof fn lemma_enclosed_goal(ground: Set<TilePos>, start: TilePos, goal: TilePos)
    requires
        start != goal,
        forall|p: TilePos| adjacent(p, goal) ==> !ground.contains(p),
    ensures
        !reachable(ground, start, goal),
{
    if reachable(ground, start, goal) {
        let walk = choose|walk: Seq<TilePos>| connects(ground, walk, start, goal);
        let last = walk.len() - 1;
        assert(last >= 1);
        assert(adjacent(walk[last - 1], walk[last]));
        assert(ground.contains(walk[last - 1]));
    }
}

/// A request whose goal cannot be reached, because a tile of the request
/// does not exist or because no walk joins them, gets no route. The router
/// removes the request and attaches nothing: the actor keeps its position
/// and, as it held no route beside the request, is left without either.
pub proof fn theorem_unreachable_goal(tiles: Seq<TilePos>, actor: ActorView)
    requires
        tiles.len() <= usize::MAX,
        actor.destination is Some,
        !routable(tile_set(tiles), actor.destination->0.start, actor.destination->0.goal),
    ensures
        chosen_route(tiles, actor.destination->0.start, actor.destination->0.goal) is None,
        resolved(tiles, actor).destination is None,
        resolved(tiles, actor).position == actor.position,
        resolved(tiles, actor).path == actor.path,
        actor.consistent() ==> resolved(tiles, actor).path is None,
{
    lemma_chosen_route(tiles, actor.destination->0.start, actor.destination->0.goal);
}

/// A goal that is fully enclosed by tiles that do not exist is a case of the
/// former: a request for it from any other tile gets no route.
pub proof fn theorem_enclosed_goal(tiles: Seq<TilePos>, start: TilePos, goal: TilePos)
    requires
        tiles.len() <= usize::MAX,
        start != goal,
        forall|p: TilePos| adjacent(p, goal) ==> !tiles.contains(p),
    ensures
        chosen_route(tiles, start, goal) is None,
{
    lemma_chosen_route(tiles, start, goal);
    lemma_enclosed_goal(tile_set(tiles), start, goal);
}

/// `ground` holds exactly the tiles of the rectangle between the corners
/// `lo` and `hi`.
pub open spec fn is_rectangle(ground: Set<TilePos>, lo: TilePos, hi: TilePos) -> bool {
    forall|p: TilePos| ground.contains(p) <==> lo.0 <= p.0 <= hi.0 && lo.1 <= p.1 <= hi.1
}

/// The tile next to `a` on the way to `b`: first along the first coordinate,
/// then along the second.
pub open spec fn toward(a: TilePos, b: TilePos) -> TilePos {
    if a.0 < b.0 {
        TilePos((a.0 + 1) as u32, a.1)
    } else if a.0 > b.0 {
        TilePos((a.0 - 1) as u32, a.1)
    } else if a.1 < b.1 {
        TilePos(a.0, (a.1 + 1) as u32)
    } else {
        TilePos(a.0, (a.1 - 1) as u32)
    }
}

/// The walk from `a` to `b` that first closes the gap in the first
/// coordinate and then the gap in the second.
pub open spec fn direct_walk(a: TilePos, b: TilePos) -> Seq<TilePos>
    decreases manhattan(a, b),
{
    if a == b {
        seq![a]
    } else {
        seq![a] + direct_walk(toward(a, b), b)
    }
}

/// Inside a rectangle the direct walk joins any two tiles in as many steps
/// as their Manhattan distance.
pub proof fn lemma_direct_walk(
    ground: Set<TilePos>,
    lo: TilePos,
    hi: TilePos,
    a: TilePos,
    b: TilePos,
)
    requires
        is_rectangle(ground, lo, hi),
        ground.contains(a),
        ground.contains(b),
    ensures
        connects(ground, direct_walk(a, b), a, b),
        direct_walk(a, b).len() - 1 == manhattan(a, b),
    decreases manhattan(a, b),
{
    if a != b {
        let next = toward(a, b);
        lemma_direct_walk(ground, lo, hi, next, b);
        let rest = direct_walk(next, b);
        let walk = direct_walk(a, b);
        assert(walk == seq![a] + rest);
        assert forall|i: int| 0 <= i < walk.len() implies ground.contains(#[trigger] walk[i]) by {
            if i > 0 {
                assert(walk[i] == rest[i - 1]);
            }
        }
        assert forall|i: int, j: int| 0 <= i && j == i + 1 && j < walk.len() implies adjacent(
            #[trigger] walk[i],
            #[trigger] walk[j],
        ) by {
            assert(walk[j] == rest[j - 1]);
            if i > 0 {
                assert(walk[i] == rest[i - 1]);
                assert(adjacent(rest[i - 1], rest[j - 1]));
            }
        }
        assert(walk[walk.len() - 1] == rest[rest.len() - 1]);
    }
}

/// In a rectangle a shortest route between two different tiles has as many
/// tiles as their Manhattan distance.
pub proof fn lemma_rectangle_route(
    ground: Set<TilePos>,
    lo: TilePos,
    hi: TilePos,
    start: TilePos,
    goal: TilePos,
    route: Seq<TilePos>,
)
    requires
        is_rectangle(ground, lo, hi),
        start != goal,
        is_shortest_route(ground, start, goal, route),
    ensures
        route.len() == manhattan(start, goal),
{
    assert(ground.contains(route[0]));
    lemma_direct_walk(ground, lo, hi, start, goal);
    assert(connects(ground, direct_walk(start, goal), start, goal));
    lemma_route_travel(ground, start, goal, route);
    let passed = travel(start, route);
    lemma_walk_covers(ground, passed, 0, passed.len() - 1);
}

/// On an unobstructed rectangular grid every request between two different
/// tiles of the grid is served, by a route with as many tiles as the
/// Manhattan distance between start and goal.
pub proof fn theorem_open_grid_route_length(
    tiles: Seq<TilePos>,
    lo: TilePos,
    hi: TilePos,
    start: TilePos,
    goal: TilePos,
)
    requires
        tiles.len() <= usize::MAX,
        is_rectangle(tile_set(tiles), lo, hi),
        tiles.contains(start),
        tiles.contains(goal),
        start != goal,
    ensures
        chosen_route(tiles, start, goal) is Some,
        chosen_route(tiles, start, goal)->0.len() == manhattan(start, goal),
{
    let ground = tile_set(tiles);
    lemma_chosen_route(tiles, start, goal);
    lemma_direct_walk(ground, lo, hi, start, goal);
    assert(connects(ground, direct_walk(start, goal), start, goal));
    lemma_rectangle_route(ground, lo, hi, start, goal, chosen_route(tiles, start, goal)->0);
}

/// A full map is such a grid: a request between two different tiles of it
/// is served by a route with as many tiles as their Manhattan distance.
pub proof fn theorem_full_map_route_length(width: u32, height: u32, start: TilePos, goal: TilePos)
    requires
        grid(width, height).len() <= usize::MAX,
        start.0 < width && start.1 < height,
        goal.0 < width && goal.1 < height,
        start != goal,
    ensures
        chosen_route(grid(width, height), start, goal) is Some,
        chosen_route(grid(width, height), start, goal)->0.len() == manhattan(start, goal),
{
    lemma_grid_tiles(width, height);
    let lo = TilePos(0, 0);
    let hi = TilePos((width - 1) as u32, (height - 1) as u32);
    theorem_open_grid_route_length(grid(width, height), lo, hi, start, goal);
}

/// A route is never empty and always has the goal as its first tile. Where
/// the start is not the goal, the route never includes the start, and read
/// from its end it is a walk from the start to the goal that no other walk
/// undercuts.
pub proof fn theorem_route_ends(tiles: Seq<TilePos>, start: TilePos, goal: TilePos)
    requires
        tiles.len() <= usize::MAX,
        chosen_route(tiles, start, goal) is Some,
    ensures
        chosen_route(tiles, start, goal)->0.len() >= 1,
        chosen_route(tiles, start, goal)->0[0] == goal,
        is_shortest_route(tile_set(tiles), start, goal, chosen_route(tiles, start, goal)->0),
        start != goal ==> !chosen_route(tiles, start, goal)->0.contains(start),
        start != goal ==> connects(
            tile_set(tiles),
            travel(start, chosen_route(tiles, start, goal)->0),
            start,
            goal,
        ),
{
    let route = chosen_route(tiles, start, goal)->0;
    lemma_chosen_route(tiles, start, goal);
    if start != goal {
        lemma_route_travel(tile_set(tiles), start, goal, route);
        if route.contains(start) {
            let i = choose|i: int| 0 <= i < route.len() && route[i] == start;
            assert(route[i] != start);
        }
    }
}

/// The actor after `steps` steps of the walker.
pub open spec fn advanced_by(actor: ActorView, steps: nat) -> ActorView
    decreases steps,
{
    if steps == 0 {
        actor
    } else {
        advanced(advanced_by(actor, (steps - 1) as nat))
    }
}

/// Each step of the walker takes exactly one tile off the route and puts the
/// actor on that tile, on its old layer; the request, if any, is not touched.
/// After as many steps as the route has tiles the actor stands on the first
/// tile of the route, the goal, and carries no route.
pub proof fn theorem_route_consumed(actor: ActorView, steps: nat)
    requires
        actor.path is Some,
        1 <= steps <= actor.path->0.len(),
    ensures
        advanced_by(actor, steps).destination == actor.destination,
        advanced_by(actor, steps).position == placed(
            actor.path->0[actor.path->0.len() - steps],
            actor.position.layer,
        ),
        steps < actor.path->0.len() ==> advanced_by(actor, steps).path == Some(
            actor.path->0.take(actor.path->0.len() - steps),
        ),
        steps == actor.path->0.len() ==> advanced_by(actor, steps).path is None,
    decreases steps,
{
    let route = actor.path->0;
    let n = route.len() as int;
    if steps == 1 {
        assert(advanced_by(actor, 0) == actor);
        assert(route.drop_last() =~= route.take(n - 1));
    } else {
        theorem_route_consumed(actor, (steps - 1) as nat);
        let earlier = advanced_by(actor, (steps - 1) as nat);
        let left = route.take(n - (steps - 1));
        assert(earlier.path == Some(left));
        assert(left[left.len() - 1] == route[n - steps]);
        assert(left.drop_last() =~= route.take(n - steps));
    }
}

/// A served request is walked off: the router replaces the request by a
/// route, and after as many steps of the walker as the route has tiles the
/// actor stands on the goal, on its old layer, with neither request nor route.
pub proof fn theorem_request_served(tiles: Seq<TilePos>, actor: ActorView)
    requires
        tiles.len() <= usize::MAX,
        actor.destination is Some,
        routable(tile_set(tiles), actor.destination->0.start, actor.destination->0.goal),
    ensures
        resolved(tiles, actor).destination is None,
        resolved(tiles, actor).position == actor.position,
        resolved(tiles, actor).path is Some,
        resolved(tiles, actor).path->0.len() >= 1,
        advanced_by(resolved(tiles, actor), resolved(tiles, actor).path->0.len()) == (ActorView {
            position: placed(actor.destination->0.goal, actor.position.layer),
            destination: None,
            path: None,
        }),
{
    let request = actor.destination->0;
    lemma_chosen_route(tiles, request.start, request.goal);
    let routed = resolved(tiles, actor);
    theorem_route_consumed(routed, routed.path->0.len());
}

/// An actor never carries a request and a route at once: a new request
/// replaces the route, the router replaces the request, and the walker adds
/// neither.
pub proof fn theorem_one_of_request_and_route(
    tiles: Seq<TilePos>,
    actor: ActorView,
    start: TilePos,
    goal: TilePos,
)
    ensures
        requested(actor, start, goal).consistent(),
        resolved(tiles, actor).consistent(),
        actor.consistent() ==> advanced(actor).consistent(),
{
}

} // verus!
