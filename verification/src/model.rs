//! The search as a function of its input: which node it selects, how the
//! arena changes, and which route comes out. The route is shown to be a
//! shortest one.

use vstd::prelude::*;
use crate::graph::{arena, exhausted, fresh, holds, indexed, is_best, seed, Node};
use crate::search::{
    chained, lemma_best_is_closest, lemma_best_reached, lemma_count_visit,
    lemma_exhausted_unreachable, lemma_initial, lemma_mark_chained, lemma_step_preserves, linked,
    search_inv, step, unvisited_count, visited_copy,
};
use crate::tile::{adjacent, lemma_adjacent_symmetric, TilePos};
use crate::walk::{
    connects, is_route, is_shortest_route, lemma_route_reaches, reachable, routable, stepwise,
    tile_set,
};

verus! {

/// The slot that the search selects next.
pub open spec fn best_slot(nodes: Seq<Node>) -> int {
    choose|b: int| is_best(nodes, b)
}

/// Only one slot can be the best.
pub proof fn lemma_best_unique(nodes: Seq<Node>, b: int)
    requires
        is_best(nodes, b),
    ensures
        best_slot(nodes) == b,
{
    let c = best_slot(nodes);
    assert(is_best(nodes, c));
    if c < b {
        assert(!nodes[c].visited);
    } else if b < c {
        assert(!nodes[b].visited);
    }
}

/// Among the first `k` nodes, slot `b` is the best, or none has a finite
/// priority and `b` is -1.
spec fn best_upto(nodes: Seq<Node>, k: int) -> int
    decreases k,
{
    if k <= 0 {
        -1
    } else {
        let b = best_upto(nodes, k - 1);
        let n = nodes[k - 1];
        if !n.visited && n.heuristic_score < u128::MAX && (b == -1 || n.heuristic_score
            < nodes[b].heuristic_score) {
            k - 1
        } else {
            b
        }
    }
}

/// `best_upto` finds the best slot among the first `k` nodes, if there is one.
proof fn lemma_best_upto(nodes: Seq<Node>, k: int)
    requires
        0 <= k <= nodes.len(),
    ensures
        -1 <= best_upto(nodes, k) < k,
        best_upto(nodes, k) == -1 ==> exhausted(nodes.take(k)),
        best_upto(nodes, k) >= 0 ==> is_best(nodes.take(k), best_upto(nodes, k)),
    decreases k,
{
    if k > 0 {
        lemma_best_upto(nodes, k - 1);
        let b = best_upto(nodes, k - 1);
        let c = best_upto(nodes, k);
        let shorter = nodes.take(k - 1);
        let longer = nodes.take(k);
        assert forall|j: int| 0 <= j < k - 1 implies #[trigger] longer[j] == shorter[j] by {}
        if c == -1 {
            assert forall|j: int|
                0 <= j < longer.len() && !(#[trigger] longer[j]).visited implies
                longer[j].heuristic_score == u128::MAX by {
                if j < k - 1 {
                    assert(longer[j] == shorter[j]);
                }
            }
        } else {
            assert forall|j: int|
                0 <= j < longer.len() && !(#[trigger] longer[j]).visited implies
                longer[c].heuristic_score <= longer[j].heuristic_score by {
                if j < k - 1 {
                    assert(longer[j] == shorter[j]);
                }
            }
            assert forall|j: int|
                0 <= j < c && !(#[trigger] longer[j]).visited implies
                longer[c].heuristic_score < longer[j].heuristic_score by {
                assert(longer[j] == shorter[j]);
            }
        }
    }
}

/// While the search has not run dry there is a best slot.
pub proof fn lemma_best_exists(nodes: Seq<Node>)
    requires
        !exhausted(nodes),
    ensures
        is_best(nodes, best_slot(nodes)),
{
    lemma_best_upto(nodes, nodes.len() as int);
    assert(nodes.take(nodes.len() as int) == nodes);
    assert(is_best(nodes, best_upto(nodes, nodes.len() as int)));
}

/// The outcome of the search from the state `nodes`: the final arena and the
/// slot of the goal in it, or nothing if the search runs dry.
pub open spec fn settle(nodes: Seq<Node>, goal: TilePos) -> Option<(Seq<Node>, int)>
    decreases unvisited_count(nodes),
{
    if exhausted(nodes) {
        None
    } else {
        let b = best_slot(nodes);
        if nodes[b].pos == goal {
            Some((nodes.update(b, visited_copy(nodes[b])), b))
        } else {
            proof {
                lemma_best_exists(nodes);
                lemma_count_visit(nodes, step(nodes, b, goal), b);
            }
            settle(step(nodes, b, goal), goal)
        }
    }
}

/// The slot of the node that stands for `tile`.
pub open spec fn slot_of(nodes: Seq<Node>, tile: TilePos) -> int {
    choose|i: int| 0 <= i < nodes.len() && (#[trigger] nodes[i]).pos == tile
}

/// Every predecessor link leads to a node of lower cost.
pub open spec fn descending(nodes: Seq<Node>) -> bool {
    forall|i: int|
        0 <= i < nodes.len() && (#[trigger] nodes[i]).previous_pos is Some ==> 0 <= slot_of(
            nodes,
            nodes[i].previous_pos->0,
        ) < nodes.len() && nodes[slot_of(nodes, nodes[i].previous_pos->0)].score < nodes[i].score
}

/// The tiles met on the way back from slot `cur` along the predecessor
/// links, the tile of `cur` and the start left out.
pub open spec fn trail(nodes: Seq<Node>, start: TilePos, cur: int) -> Seq<TilePos>
    decreases nodes[cur].score,
    when descending(nodes) && 0 <= cur < nodes.len()
{
    match nodes[cur].previous_pos {
        None => Seq::<TilePos>::empty(),
        Some(tile) => {
            let rest = trail(nodes, start, slot_of(nodes, tile));
            if tile != start {
                seq![tile] + rest
            } else {
                rest
            }
        },
    }
}

/// The route that the search finds for a request: none where a tile of the
/// request is missing or the search runs dry, else the goal followed by the
/// trail back from it.
pub open spec fn chosen_route(
    tiles: Seq<TilePos>,
    start: TilePos,
    goal: TilePos,
) -> Option<Seq<TilePos>> {
    if !tiles.contains(goal) || !tiles.contains(start) {
        None
    } else {
        match settle(arena(tiles, start), goal) {
            None => None,
            Some((done, b)) => Some(seq![goal] + trail(done, start, b)),
        }
    }
}

/// In an indexed arena the slot of a tile is the one the index gives.
pub proof fn lemma_slot_of(nodes: Seq<Node>, index: Map<TilePos, usize>, tile: TilePos)
    requires
        indexed(nodes, index),
        index.contains_key(tile),
    ensures
        slot_of(nodes, tile) == index[tile],
{
    let i = index[tile] as int;
    assert(nodes[i].pos == tile);
    let s = slot_of(nodes, tile);
    assert(index.contains_key(nodes[s].pos) && index[nodes[s].pos] == s);
}

/// The links of a chained arena descend.
pub proof fn lemma_chained_descends(
    nodes: Seq<Node>,
    index: Map<TilePos, usize>,
    start: TilePos,
    goal: TilePos,
)
    requires
        chained(nodes, index, start, goal),
    ensures
        descending(nodes),
{
    assert forall|i: int| 0 <= i < nodes.len() && (#[trigger] nodes[i]).previous_pos is Some implies 0
        <= slot_of(nodes, nodes[i].previous_pos->0) < nodes.len() && nodes[slot_of(
        nodes,
        nodes[i].previous_pos->0,
    )].score < nodes[i].score by {
        assert(i >= 1);
        assert(linked(nodes, index, goal, i));
        lemma_slot_of(nodes, index, nodes[i].previous_pos->0);
    }
}

/// No two nodes stand for the same tile.
pub open spec fn distinct(nodes: Seq<Node>) -> bool {
    forall|i: int, j: int|
        0 <= i < nodes.len() && 0 <= j < nodes.len() && i != j ==> (#[trigger] nodes[i]).pos != (
        #[trigger] nodes[j]).pos
}

/// The index that goes with an arena.
pub open spec fn index_of(nodes: Seq<Node>) -> Map<TilePos, usize> {
    Map::new(|p: TilePos| holds(nodes, p), |p: TilePos| slot_of(nodes, p) as usize)
}

/// The arena begins with the seed, holds fresh nodes after it, one for each
/// tile, and is no longer than its input requires.
pub proof fn lemma_arena(tiles: Seq<TilePos>, start: TilePos)
    ensures
        arena(tiles, start).len() >= 1,
        arena(tiles, start)[0] == seed(start),
        forall|i: int|
            1 <= i < arena(tiles, start).len() ==> #[trigger] arena(tiles, start)[i] == fresh(
                arena(tiles, start)[i].pos,
            ),
        distinct(arena(tiles, start)),
        forall|p: TilePos| holds(arena(tiles, start), p) <==> (p == start || tiles.contains(p)),
        arena(tiles, start).len() <= tiles.len() + 1,
        tiles.contains(start) ==> arena(tiles, start).len() <= tiles.len(),
    decreases tiles.len(),
{
    let a = arena(tiles, start);
    if tiles.len() == 0 {
        assert(a[0].pos == start);
        assert forall|p: TilePos| holds(a, p) <==> (p == start || tiles.contains(p)) by {}
    } else {
        let front = tiles.drop_last();
        let tile = tiles.last();
        let e = arena(front, start);
        lemma_arena(front, start);
        assert forall|p: TilePos| tiles.contains(p) <==> (front.contains(p) || p == tile) by {
            if tiles.contains(p) {
                let i = choose|i: int| 0 <= i < tiles.len() && tiles[i] == p;
                if i < front.len() {
                    assert(front[i] == p);
                }
            }
            if front.contains(p) {
                let i = choose|i: int| 0 <= i < front.len() && front[i] == p;
                assert(tiles[i] == p);
            }
            if p == tile {
                assert(tiles[tiles.len() - 1] == p);
            }
        }
        if holds(e, tile) {
            assert(a == e);
        } else {
            assert(a == e.push(fresh(tile)));
            assert(a[0] == e[0]);
            assert forall|i: int| 1 <= i < a.len() implies #[trigger] a[i] == fresh(a[i].pos) by {
                if i < e.len() {
                    assert(a[i] == e[i]);
                }
            }
            assert forall|i: int, j: int|
                0 <= i < a.len() && 0 <= j < a.len() && i != j implies (#[trigger] a[i]).pos != (
            #[trigger] a[j]).pos by {
                if i < e.len() && j < e.len() {
                    assert(a[i] == e[i] && a[j] == e[j]);
                } else if i < e.len() {
                    assert(a[i] == e[i]);
                } else {
                    assert(a[j] == e[j]);
                }
            }
            assert forall|p: TilePos| holds(a, p) <==> (holds(e, p) || p == tile) by {
                if holds(a, p) {
                    let i = choose|i: int| 0 <= i < a.len() && (#[trigger] a[i]).pos == p;
                    if i < e.len() {
                        assert(e[i].pos == p);
                    }
                }
                if holds(e, p) {
                    let i = choose|i: int| 0 <= i < e.len() && (#[trigger] e[i]).pos == p;
                    assert(a[i].pos == p);
                }
                if p == tile {
                    assert(a[a.len() - 1].pos == p);
                }
            }
        }
        if tiles.contains(start) && !front.contains(start) {
            assert(e[0].pos == start);
            assert(holds(e, tile));
        }
    }
}

/// An arena without repeated tiles is indexed by its own index.
pub proof fn lemma_index_of(nodes: Seq<Node>)
    requires
        distinct(nodes),
        nodes.len() <= usize::MAX,
    ensures
        indexed(nodes, index_of(nodes)),
        forall|p: TilePos| index_of(nodes).contains_key(p) <==> holds(nodes, p),
{
    let index = index_of(nodes);
    assert forall|i: int| 0 <= i < nodes.len() implies index.contains_key((#[trigger] nodes[i]).pos)
        && index[nodes[i].pos] == i by {
        assert(holds(nodes, nodes[i].pos));
        let s = slot_of(nodes, nodes[i].pos);
        assert(nodes[s].pos == nodes[i].pos);
    }
    assert forall|p: TilePos| #[trigger] index.contains_key(p) implies index[p] < nodes.len()
        && nodes[index[p] as int].pos == p by {
        assert(holds(nodes, p));
    }
}

/// The search has ended on the goal in slot `b`: every link is in place and
/// no walk from the start to the goal takes fewer steps than the goal's cost.
pub open spec fn goal_settled(
    done: Seq<Node>,
    index: Map<TilePos, usize>,
    start: TilePos,
    goal: TilePos,
    b: int,
) -> bool {
    &&& chained(done, index, start, goal)
    &&& 0 <= b < done.len()
    &&& done[b].pos == goal
    &&& done[b].score < u64::MAX
    &&& forall|walk: Seq<TilePos>| #[trigger]
        connects(index.dom(), walk, start, goal) ==> done[b].score <= walk.len() - 1
}

/// From a state that satisfies the invariant the search either runs dry,
/// and then the goal cannot be reached, or it ends on the goal with every
/// link in place and a cost that no walk to the goal undercuts.
pub proof fn lemma_settle(
    nodes: Seq<Node>,
    index: Map<TilePos, usize>,
    start: TilePos,
    goal: TilePos,
)
    requires
        search_inv(nodes, index, start, goal),
    ensures
        settle(nodes, goal) is None ==> !reachable(index.dom(), start, goal),
        settle(nodes, goal) matches Some((done, b)) ==> goal_settled(done, index, start, goal, b),
    decreases unvisited_count(nodes),
{
    if exhausted(nodes) {
        lemma_exhausted_unreachable(nodes, index, start, goal);
    } else {
        lemma_best_exists(nodes);
        let b = best_slot(nodes);
        lemma_best_reached(nodes, index, start, goal, b);
        if nodes[b].pos == goal {
            let done = nodes.update(b, visited_copy(nodes[b]));
            lemma_mark_chained(nodes, done, index, start, goal, b);
            assert forall|walk: Seq<TilePos>| #[trigger]
                connects(index.dom(), walk, start, goal) implies done[b].score <= walk.len() - 1 by {
                lemma_best_is_closest(nodes, index, start, goal, b, walk);
            }
        } else {
            lemma_step_preserves(nodes, index, start, goal, b);
            lemma_settle(step(nodes, b, goal), index, start, goal);
        }
    }
}

/// The trail back from a reached node leads over existing tiles, step by
/// step, down to a neighbour of the start, and has one tile for each unit of
/// cost but the last.
pub proof fn lemma_trail(
    nodes: Seq<Node>,
    index: Map<TilePos, usize>,
    start: TilePos,
    goal: TilePos,
    cur: int,
)
    requires
        chained(nodes, index, start, goal),
        0 <= cur < nodes.len(),
        nodes[cur].score < u64::MAX,
    ensures
        forall|i: int|
            0 <= i < trail(nodes, start, cur).len() ==> index.contains_key(
                #[trigger] trail(nodes, start, cur)[i],
            ) && trail(nodes, start, cur)[i] != start,
        stepwise(trail(nodes, start, cur)),
        cur == 0 ==> trail(nodes, start, cur).len() == 0,
        cur != 0 ==> trail(nodes, start, cur).len() + 1 == nodes[cur].score,
        cur != 0 && trail(nodes, start, cur).len() == 0 ==> adjacent(nodes[cur].pos, start),
        trail(nodes, start, cur).len() > 0 ==> adjacent(nodes[cur].pos, trail(nodes, start, cur)[0])
            && adjacent(trail(nodes, start, cur)[trail(nodes, start, cur).len() - 1], start),
    decreases nodes[cur].score,
{
    lemma_chained_descends(nodes, index, start, goal);
    assert(index.contains_key(nodes[0].pos) && index[nodes[0].pos] == 0);
    if cur != 0 {
        assert(linked(nodes, index, goal, cur));
        let tile = nodes[cur].previous_pos->0;
        lemma_slot_of(nodes, index, tile);
        let p = slot_of(nodes, tile);
        lemma_trail(nodes, index, start, goal, p);
        let rest = trail(nodes, start, p);
        let t = trail(nodes, start, cur);
        lemma_adjacent_symmetric(tile, nodes[cur].pos);
        if tile != start {
            assert(t == seq![tile] + rest);
            assert(p != 0);
            assert forall|i: int| 0 <= i < t.len() implies index.contains_key(#[trigger] t[i]) && t[i]
                != start by {
                if i > 0 {
                    assert(t[i] == rest[i - 1]);
                }
            }
            assert forall|i: int, j: int| 0 <= i && j == i + 1 && j < t.len() implies adjacent(
                #[trigger] t[i],
                #[trigger] t[j],
            ) by {
                assert(t[j] == rest[j - 1]);
                if i > 0 {
                    assert(t[i] == rest[i - 1]);
                    assert(adjacent(rest[i - 1], rest[j - 1]));
                }
            }
            if rest.len() > 0 {
                assert(t[t.len() - 1] == rest[rest.len() - 1]);
            }
        } else {
            assert(t == rest);
            assert(p == 0);
        }
    }
}

/// The route that the search finds is there exactly when the request can be
/// served, and it is a shortest route.
pub proof fn lemma_chosen_route(tiles: Seq<TilePos>, start: TilePos, goal: TilePos)
    requires
        tiles.len() <= usize::MAX,
    ensures
        chosen_route(tiles, start, goal) is Some <==> routable(tile_set(tiles), start, goal),
        chosen_route(tiles, start, goal) matches Some(route) ==> is_shortest_route(
            tile_set(tiles),
            start,
            goal,
            route,
        ),
{
    if tiles.contains(goal) && tiles.contains(start) {
        let nodes = arena(tiles, start);
        let index = index_of(nodes);
        let ground = tile_set(tiles);
        lemma_arena(tiles, start);
        lemma_index_of(nodes);
        assert(index.dom() =~= ground);
        lemma_initial(nodes, index, start, goal);
        lemma_settle(nodes, index, start, goal);
        match settle(nodes, goal) {
            None => {},
            Some((done, b)) => {
                let t = trail(done, start, b);
                let route = seq![goal] + t;
                lemma_trail(done, index, start, goal, b);
                assert(index.contains_key(done[0].pos) && index[done[0].pos] == 0);
                assert(index.contains_key(done[b].pos) && index[done[b].pos] == b);
                assert(route[0] == goal);
                assert forall|i: int| 0 <= i < route.len() implies ground.contains(
                    #[trigger] route[i],
                ) by {
                    if i > 0 {
                        assert(route[i] == t[i - 1]);
                        assert(index.contains_key(t[i - 1]));
                    }
                }
                assert forall|i: int, j: int| 0 <= i && j == i + 1 && j < route.len() implies adjacent(
                    #[trigger] route[i],
                    #[trigger] route[j],
                ) by {
                    assert(route[j] == t[j - 1]);
                    if i > 0 {
                        assert(route[i] == t[i - 1]);
                        assert(adjacent(t[i - 1], t[j - 1]));
                    }
                }
                if start != goal {
                    assert(b != 0);
                    assert forall|i: int| 0 <= i < route.len() implies #[trigger] route[i]
                        != start by {
                        if i > 0 {
                            assert(route[i] == t[i - 1]);
                        }
                    }
                    if t.len() > 0 {
                        assert(route[route.len() - 1] == t[t.len() - 1]);
                    }
                } else {
                    assert(b == 0);
                }
                assert(is_route(ground, start, goal, route));
                lemma_route_reaches(ground, start, goal, route);
            },
        }
    }
}

} // verus!
