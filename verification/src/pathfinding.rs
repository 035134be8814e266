//! The router: turns a request to go from one tile to another into a
//! shortest route over the tiles that currently exist.

use vstd::prelude::*;
use crate::actor::{Actor, ActorView};
use crate::graph::{arena, exhausted, expand, select, Graph, Node};
use crate::index::TileIndex;
use crate::model::{
    chosen_route, descending, lemma_best_unique, lemma_chained_descends, lemma_chosen_route,
    lemma_slot_of, settle, trail,
};
use crate::search::{
    chained, lemma_best_reached, lemma_initial, lemma_mark_chained, lemma_step_preserves, linked,
    search_inv, step, unvisited_count, visited_copy,
};
use crate::tile::TilePos;
use crate::walk::{is_shortest_route, routable, tile_set};

verus! {

/// A route, stored from the goal back towards the start. The tile to step
/// onto next is the last one.
#[derive(Default, Debug, Clone, PartialEq, Eq)]
pub struct TilePath(pub Vec<TilePos>);

impl View for TilePath {
    type V = Seq<TilePos>;

    open spec fn view(&self) -> Seq<TilePos> {
        self.0@
    }
}

/// A request to be routed from `start` to `goal`.
#[derive(Default, Debug, Clone, Copy, PartialEq, Eq, Structural)]
pub struct Destination {
    pub start: TilePos,
    pub goal: TilePos,
}

impl Destination {
    /// Creates the request to go from `start` to `goal`.
    pub fn new(start: TilePos, goal: TilePos) -> (request: Destination)
        ensures
            request.start == start,
            request.goal == goal,
    {
        Destination { start, goal }
    }
}

/// Tells whether `pos` occurs in `tiles`.
pub fn contains_tile(tiles: &Vec<TilePos>, pos: TilePos) -> (found: bool)
    ensures
        found == tile_set(tiles@).contains(pos),
{
    let mut k: usize = 0;
    while k < tiles.len()
        invariant
            k <= tiles.len(),
            forall|j: int| 0 <= j < k ==> tiles@[j] != pos,
        decreases tiles.len() - k,
    {
        if tiles[k] == pos {
            return true;
        }
        k += 1;
    }
    false
}

/// Walks the predecessor links from the node in slot `b`, which holds the
/// goal, back to the start, and collects the tiles passed, the start left out.
pub fn reconstruct(
    nodes: &Vec<Node>,
    index: &TileIndex,
    start: TilePos,
    goal: TilePos,
    b: usize,
) -> (route:
    Vec<TilePos>)
    requires
        chained(nodes@, index@, start, goal),
        b < nodes@.len(),
        nodes@[b as int].pos == goal,
        nodes@[b as int].score < u64::MAX,
    ensures
        route@ == seq![goal] + trail(nodes@, start, b as int),
{
    let mut route: Vec<TilePos> = Vec::new();
    route.push(goal);
    let mut otp = nodes[b].previous_pos;
    let ghost mut cur: int = b as int;
    proof {
        lemma_chained_descends(nodes@, index@, start, goal);
        assert(route@ == seq![goal]);
    }
    while otp.is_some()
        invariant
            chained(nodes@, index@, start, goal),
            descending(nodes@),
            seq![goal] + trail(nodes@, start, b as int) == route@ + trail(nodes@, start, cur),
            0 <= cur < nodes@.len(),
            otp == nodes@[cur].previous_pos,
            nodes@[cur].score < u64::MAX,
        decreases nodes@[cur].score,
    {
        let tp = otp.unwrap();
        proof {
            assert(cur != 0);
            assert(linked(nodes@, index@, goal, cur));
            lemma_slot_of(nodes@, index@, tp);
        }
        let slot = index.get(tp).unwrap();
        if tp != start {
            proof {
                let rest = trail(nodes@, start, slot as int);
                assert(route@ + (seq![tp] + rest) == route@.push(tp) + rest);
            }
            route.push(tp);
        }
        otp = nodes[slot].previous_pos;
        proof {
            cur = slot as int;
        }
    }
    assert(route@ + trail(nodes@, start, cur) == route@);
    route
}

/// A route, if there is one, as the sequence of its tiles.
pub open spec fn path_view(found: Option<TilePath>) -> Option<Seq<TilePos>> {
    match found {
        Some(path) => Some(path@),
        None => None,
    }
}

/// Searches for a shortest route from `start` to `goal` over `tiles`.
///
/// A route is returned exactly when both tiles exist and some walk leads from
/// one to the other; it then takes as few steps as any such walk. Among
/// several shortest routes the search decides, which goes by the order of
/// `tiles`.
pub fn find_route(tiles: &Vec<TilePos>, start: TilePos, goal: TilePos) -> (found: Option<TilePath>)
    ensures
        path_view(found) == chosen_route(tiles@, start, goal),
        found.is_some() <==> routable(tile_set(tiles@), start, goal),
        found matches Some(path) ==> is_shortest_route(tile_set(tiles@), start, goal, path@),
{
    proof {
        assert(tiles@.len() == tiles.len());
        lemma_chosen_route(tiles@, start, goal);
    }
    if !contains_tile(tiles, goal) || !contains_tile(tiles, start) {
        return None;
    }
    let ghost outcome = chosen_route(tiles@, start, goal);
    let graph = Graph::build(tiles, start);
    let mut nodes = graph.nodes;
    let index = graph.index;
    proof {
        assert(nodes@.len() == nodes.len());
        lemma_initial(nodes@, index@, start, goal);
    }
    loop
        invariant
            search_inv(nodes@, index@, start, goal),
            settle(nodes@, goal) == settle(arena(tiles@, start), goal),
            tiles@.contains(start),
            tiles@.contains(goal),
            outcome == chosen_route(tiles@, start, goal),
            outcome is Some <==> routable(tile_set(tiles@), start, goal),
            outcome matches Some(route) ==> is_shortest_route(tile_set(tiles@), start, goal, route),
        decreases unvisited_count(nodes@),
    {
        let ghost before = nodes@;
        match select(&nodes) {
            None => {
                return None;
            },
            Some(b) => {
                proof {
                    lemma_best_reached(before, index@, start, goal, b as int);
                    lemma_best_unique(before, b as int);
                    assert(!exhausted(before));
                }
                let mut curr_node = nodes[b];
                curr_node.visited = true;
                nodes.set(b, curr_node);
                if curr_node.pos == goal {
                    proof {
                        assert(nodes@ == before.update(b as int, visited_copy(before[b as int])));
                        lemma_mark_chained(before, nodes@, index@, start, goal, b as int);
                    }
                    let route = reconstruct(&nodes, &index, start, goal, b);
                    return Some(TilePath(route));
                }
                expand(&mut nodes, &index, b, goal);
                proof {
                    assert(nodes@ =~= step(before, b as int, goal));
                    lemma_step_preserves(before, index@, start, goal, b as int);
                }
            },
        }
    }
}

/// The actor after the router has dealt with it. An actor without a request
/// is left as it is. Otherwise the request is gone; where the search finds a
/// route, the route has taken its place, and where it finds none, nothing has.
pub open spec fn resolved(tiles: Seq<TilePos>, actor: ActorView) -> ActorView {
    match actor.destination {
        None => actor,
        Some(request) => ActorView {
            position: actor.position,
            destination: None,
            path: match chosen_route(tiles, request.start, request.goal) {
                Some(route) => Some(route),
                None => actor.path,
            },
        },
    }
}

impl Actor {
    /// Serves the actor's request, if it has one, over `tiles`.
    pub fn resolve(&mut self, tiles: &Vec<TilePos>)
        ensures
            final(self)@ == resolved(tiles@, old(self)@),
    {
        match self.destination.take() {
            None => {},
            Some(request) => {
                match find_route(tiles, request.start, request.goal) {
                    None => {},
                    Some(path) => {
                        self.path = Some(path);
                    },
                }
            },
        }
    }
}

/// One tick of the router: serves the request of every actor that has one.
pub fn pathfinding(actors: &mut Vec<Actor>, tiles: &Vec<TilePos>)
    ensures
        final(actors)@.len() == old(actors)@.len(),
        forall|i: int|
            0 <= i < old(actors)@.len() ==> #[trigger] final(actors)@[i]@ == resolved(
                tiles@,
                old(actors)@[i]@,
            ),
{
    let mut k: usize = 0;
    while k < actors.len()
        invariant
            k <= actors@.len(),
            actors@.len() == old(actors)@.len(),
            forall|i: int| 0 <= i < k ==> #[trigger] actors@[i]@ == resolved(tiles@, old(actors)@[i]@),
            forall|i: int| k <= i < actors@.len() ==> #[trigger] actors@[i] == old(actors)@[i],
        decreases actors@.len() - k,
    {
        actors[k].resolve(tiles);
        k += 1;
    }
}

/// Some route passes over `tile`.
pub open spec fn on_a_path(tile_paths: Seq<TilePath>, tile: TilePos) -> bool {
    exists|a: int, b: int|
        0 <= a < tile_paths.len() && 0 <= b < tile_paths[a]@.len() && #[trigger] tile_paths[a]@[b]
            == tile
}

/// `tile` occurs in one of the first `k` routes, or among the first `j`
/// tiles of route `k`.
pub open spec fn seen(tile_paths: Seq<TilePath>, k: int, j: int, tile: TilePos) -> bool {
    exists|a: int, b: int|
        0 <= a < tile_paths.len() && 0 <= b < tile_paths[a]@.len() && (a < k || (a == k && b < j))
            && #[trigger] tile_paths[a]@[b] == tile
}

/// Tells for each tile of `tiles` whether a route of `tile_paths` passes over
/// it, so that it can be drawn highlighted.
pub fn path_highlight(tiles: &Vec<TilePos>, tile_paths: &Vec<TilePath>) -> (lit: Vec<bool>)
    ensures
        lit@.len() == tiles@.len(),
        forall|i: int| 0 <= i < tiles@.len() ==> #[trigger] lit@[i] == on_a_path(tile_paths@, tiles@[i]),
{
    let mut tile_map = TileIndex::new();
    let mut k: usize = 0;
    while k < tile_paths.len()
        invariant
            k <= tile_paths@.len(),
            forall|p: TilePos| tile_map@.contains_key(p) <==> seen(tile_paths@, k as int, 0, p),
        decreases tile_paths@.len() - k,
    {
        let path = &tile_paths[k].0;
        let mut j: usize = 0;
        while j < path.len()
            invariant
                k < tile_paths@.len(),
                path@ == tile_paths@[k as int]@,
                j <= path@.len(),
                forall|p: TilePos|
                    tile_map@.contains_key(p) <==> seen(tile_paths@, k as int, j as int, p),
            decreases path@.len() - j,
        {
            let ghost before = tile_map@;
            tile_map.insert(path[j], k);
            proof {
                assert forall|p: TilePos| tile_map@.contains_key(p) <==> seen(
                    tile_paths@,
                    k as int,
                    j + 1,
                    p,
                ) by {
                    if p == path@[j as int] {
                        assert(tile_paths@[k as int]@[j as int] == p);
                    }
                    assert(before.contains_key(p) <==> seen(tile_paths@, k as int, j as int, p));
                }
            }
            j += 1;
        }
        k += 1;
    }
    proof {
        assert forall|p: TilePos| tile_map@.contains_key(p) <==> on_a_path(tile_paths@, p) by {
            if on_a_path(tile_paths@, p) {
                let (a, b) = choose|a: int, b: int|
                    0 <= a < tile_paths@.len() && 0 <= b < tile_paths@[a]@.len()
                        && #[trigger] tile_paths@[a]@[b] == p;
                assert(seen(tile_paths@, k as int, 0, p));
            }
        }
    }
    let mut lit: Vec<bool> = Vec::new();
    let mut i: usize = 0;
    while i < tiles.len()
        invariant
            i <= tiles@.len(),
            lit@.len() == i,
            forall|p: TilePos| tile_map@.contains_key(p) <==> on_a_path(tile_paths@, p),
            forall|m: int| 0 <= m < i ==> #[trigger] lit@[m] == on_a_path(tile_paths@, tiles@[m]),
        decreases tiles@.len() - i,
    {
        lit.push(tile_map.get(tiles[i]).is_some());
        i += 1;
    }
    lit
}

} // verus!
