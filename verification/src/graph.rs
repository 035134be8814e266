//! The search graph: one node per walkable tile, kept in an arena in the
//! order in which the tiles were first seen, with an index from coordinates
//! to arena slots.

use vstd::prelude::*;
use crate::index::TileIndex;
use crate::tile::{
    adjacent, calculate_heuristic_score, edge_neighbors, east, lemma_adjacent_is_edge_neighbor,
    manhattan, north, south, west, TilePos,
};

verus! {

/// The bookkeeping of the search for one tile.
///
/// `score` is the cheapest known cost from the start and `heuristic_score`
/// the priority, that cost plus the estimate to the goal. Both hold their
/// type's largest value while the tile has not been reached. The priority is
/// wider than the cost so that the sum always fits.
#[derive(Default, Debug, Clone, Copy, PartialEq, Eq)]
pub struct Node {
    pub pos: TilePos,
    pub score: u64,
    pub heuristic_score: u128,
    pub visited: bool,
    pub previous_pos: Option<TilePos>,
}

/// The node of a tile that the search has not reached.
pub open spec fn fresh(pos: TilePos) -> Node {
    Node { pos, score: u64::MAX, heuristic_score: u128::MAX, visited: false, previous_pos: None }
}

/// The node from which the search begins.
pub open spec fn seed(start: TilePos) -> Node {
    Node { pos: start, score: 0, heuristic_score: 0, visited: false, previous_pos: None }
}

impl Node {
    /// Creates the node of a tile that has not been reached.
    pub fn new(pos: TilePos) -> (node: Node)
        ensures
            node == fresh(pos),
    {
        Node { pos, score: u64::MAX, heuristic_score: u128::MAX, visited: false, previous_pos: None }
    }
}

/// The cost of a tile entered from `curr`: one more than the cost of `curr`.
pub fn calculate_score(curr: &Node) -> (score: u64)
    requires
        curr.score < u64::MAX,
    ensures
        score == curr.score + 1,
{
    curr.score + 1
}

/// Every node is found under its own coordinate, and the index knows no
/// other coordinate. In particular no two nodes share a tile.
pub open spec fn indexed(nodes: Seq<Node>, index: Map<TilePos, usize>) -> bool {
    &&& forall|i: int|
        0 <= i < nodes.len() ==> index.contains_key((#[trigger] nodes[i]).pos) && index[nodes[i].pos]
            == i
    &&& forall|p: TilePos| #[trigger]
        index.contains_key(p) ==> index[p] < nodes.len() && nodes[index[p] as int].pos == p
}

/// Some node of `nodes` stands for `tile`.
pub open spec fn holds(nodes: Seq<Node>, tile: TilePos) -> bool {
    exists|i: int| 0 <= i < nodes.len() && (#[trigger] nodes[i]).pos == tile
}

/// The arena of a search from `start` over `tiles`: the seed node, then a
/// fresh node for each further tile in the order of first occurrence.
pub open spec fn arena(tiles: Seq<TilePos>, start: TilePos) -> Seq<Node>
    decreases tiles.len(),
{
    if tiles.len() == 0 {
        seq![seed(start)]
    } else {
        let earlier = arena(tiles.drop_last(), start);
        if holds(earlier, tiles.last()) {
            earlier
        } else {
            earlier.push(fresh(tiles.last()))
        }
    }
}

/// The node arena of one search together with its coordinate index.
pub struct Graph {
    pub nodes: Vec<Node>,
    pub index: TileIndex,
}

impl Graph {
    /// The index and the arena agree.
    pub open spec fn wf(&self) -> bool {
        indexed(self.nodes@, self.index@)
    }

    /// Builds the graph of a search from `start`: the seed node first, then a
    /// fresh node for every other tile of `tiles`, each tile once, in the
    /// order of first occurrence.
    pub fn build(tiles: &Vec<TilePos>, start: TilePos) -> (graph: Graph)
        ensures
            graph.wf(),
            graph.nodes@ == arena(tiles@, start),
            graph.nodes@.len() >= 1,
            graph.nodes@[0] == seed(start),
            forall|i: int|
                1 <= i < graph.nodes@.len() ==> #[trigger] graph.nodes@[i] == fresh(graph.nodes@[i].pos),
            forall|p: TilePos|
                graph.index@.contains_key(p) <==> (p == start || tiles@.contains(p)),
    {
        let mut nodes: Vec<Node> = Vec::new();
        let mut index = TileIndex::new();
        nodes.push(
            Node { pos: start, score: 0, heuristic_score: 0, visited: false, previous_pos: None },
        );
        index.insert(start, 0);
        assert(tiles@.take(0).len() == 0);
        let mut k: usize = 0;
        while k < tiles.len()
            invariant
                k <= tiles.len(),
                indexed(nodes@, index@),
                nodes@ == arena(tiles@.take(k as int), start),
                nodes@.len() >= 1,
                nodes@[0] == seed(start),
                forall|i: int| 1 <= i < nodes@.len() ==> #[trigger] nodes@[i] == fresh(nodes@[i].pos),
                forall|p: TilePos|
                    index@.contains_key(p) <==> (p == start || exists|j: int|
                        0 <= j < k && tiles@[j] == p),
            decreases tiles.len() - k,
        {
            let tile = tiles[k];
            proof {
                let upto = tiles@.take(k + 1);
                assert(upto.drop_last() == tiles@.take(k as int));
                assert(upto.last() == tile);
                if holds(nodes@, tile) {
                    let i = choose|i: int| 0 <= i < nodes@.len() && (#[trigger] nodes@[i]).pos == tile;
                    assert(index@.contains_key(nodes@[i].pos));
                }
            }
            if index.get(tile).is_none() {
                let slot = nodes.len();
                index.insert(tile, slot);
                nodes.push(Node::new(tile));
            }
            k += 1;
        }
        assert(tiles@.take(k as int) == tiles@);
        Graph { nodes, index }
    }
}

/// Slot `b` holds an unvisited node of finite priority that no unvisited
/// node undercuts, and that is the first such node in arena order.
pub open spec fn is_best(nodes: Seq<Node>, b: int) -> bool {
    &&& 0 <= b < nodes.len()
    &&& !nodes[b].visited
    &&& nodes[b].heuristic_score < u128::MAX
    &&& forall|j: int|
        0 <= j < nodes.len() && !(#[trigger] nodes[j]).visited ==> nodes[b].heuristic_score
            <= nodes[j].heuristic_score
    &&& forall|j: int|
        0 <= j < b && !(#[trigger] nodes[j]).visited ==> nodes[b].heuristic_score
            < nodes[j].heuristic_score
}

/// No unvisited node has a finite priority.
pub open spec fn exhausted(nodes: Seq<Node>) -> bool {
    forall|j: int|
        0 <= j < nodes.len() && !(#[trigger] nodes[j]).visited ==> nodes[j].heuristic_score
            == u128::MAX
}

/// Picks the unvisited node of lowest finite priority, the first one in
/// arena order among equals, or reports that none is left.
pub fn select(nodes: &Vec<Node>) -> (best: Option<usize>)
    ensures
        best matches Some(b) ==> is_best(nodes@, b as int),
        best is None ==> exhausted(nodes@),
{
    let mut best: Option<usize> = None;
    let mut lowest: u128 = u128::MAX;
    let mut k: usize = 0;
    while k < nodes.len()
        invariant
            k <= nodes.len(),
            match best {
                Some(b) => b < k && !nodes@[b as int].visited && nodes@[b as int].heuristic_score
                    == lowest && lowest < u128::MAX,
                None => lowest == u128::MAX,
            },
            forall|j: int|
                0 <= j < k && !(#[trigger] nodes@[j]).visited ==> lowest <= nodes@[j].heuristic_score,
            forall|j: int|
                best is Some && 0 <= j < best->0 && !(#[trigger] nodes@[j]).visited ==> lowest
                    < nodes@[j].heuristic_score,
        decreases nodes.len() - k,
    {
        let node = nodes[k];
        if !node.visited && node.heuristic_score < lowest {
            best = Some(k);
            lowest = node.heuristic_score;
        }
        k += 1;
    }
    best
}

/// Entering `node` from `from` would lower its cost.
pub open spec fn improvable(node: Node, from: Node) -> bool {
    !node.visited && from.score + 1 < node.score
}

/// `node` after it has been entered from `from`.
pub open spec fn improved(node: Node, from: Node, goal: TilePos) -> Node {
    Node {
        pos: node.pos,
        score: (from.score + 1) as u64,
        heuristic_score: (from.score + 1 + manhattan(node.pos, goal)) as u128,
        visited: false,
        previous_pos: Some(from.pos),
    }
}

/// `node` after an attempt to enter it from `from`: improved where that
/// lowers its cost, untouched otherwise.
pub open spec fn relaxed(node: Node, from: Node, goal: TilePos) -> Node {
    if improvable(node, from) {
        improved(node, from, goal)
    } else {
        node
    }
}

/// Tries to enter the node of `target` from `from`. A tile without a node is
/// an obstacle and is skipped.
pub fn relax(nodes: &mut Vec<Node>, index: &TileIndex, from: Node, target: TilePos, goal: TilePos)
    requires
        indexed(old(nodes)@, index@),
        from.score < u64::MAX,
    ensures
        final(nodes)@.len() == old(nodes)@.len(),
        forall|j: int|
            0 <= j < old(nodes)@.len() ==> #[trigger] final(nodes)@[j] == (if old(nodes)@[j].pos
                == target {
                relaxed(old(nodes)@[j], from, goal)
            } else {
                old(nodes)@[j]
            }),
{
    match index.get(target) {
        None => {},
        Some(slot) => {
            let mut node = nodes[slot];
            if !node.visited {
                let new_score = calculate_score(&from);
                if new_score < node.score {
                    node.score = new_score;
                    node.heuristic_score = new_score as u128 + calculate_heuristic_score(
                        node.pos,
                        goal,
                    ) as u128;
                    node.previous_pos = Some(from.pos);
                    nodes.set(slot, node);
                }
            }
        },
    }
}

/// `tile` is one of the first `k` entries of `around`.
pub open spec fn among(around: [Option<TilePos>; 4], k: int, tile: TilePos) -> bool {
    exists|m: int| 0 <= m < k && around[m] == Some(tile)
}

/// Tries to enter each of the four edge neighbours of the node in slot `b`
/// from that node.
pub fn expand(nodes: &mut Vec<Node>, index: &TileIndex, b: usize, goal: TilePos)
    requires
        indexed(old(nodes)@, index@),
        b < old(nodes)@.len(),
        old(nodes)@[b as int].score < u64::MAX,
    ensures
        final(nodes)@.len() == old(nodes)@.len(),
        forall|j: int|
            0 <= j < old(nodes)@.len() ==> #[trigger] final(nodes)@[j] == (if adjacent(
                old(nodes)@[b as int].pos,
                old(nodes)@[j].pos,
            ) {
                relaxed(old(nodes)@[j], old(nodes)@[b as int], goal)
            } else {
                old(nodes)@[j]
            }),
{
    let from = nodes[b];
    let around = edge_neighbors(from.pos);
    let ghost before = nodes@;
    let mut k: usize = 0;
    while k < 4
        invariant
            k <= 4,
            indexed(nodes@, index@),
            from == before[b as int],
            from.score < u64::MAX,
            nodes@.len() == before.len(),
            around[0] == north(from.pos),
            around[1] == south(from.pos),
            around[2] == west(from.pos),
            around[3] == east(from.pos),
            forall|j: int|
                0 <= j < before.len() ==> #[trigger] nodes@[j] == (if among(
                    around,
                    k as int,
                    before[j].pos,
                ) {
                    relaxed(before[j], from, goal)
                } else {
                    before[j]
                }),
        decreases 4 - k,
    {
        let ghost mid = nodes@;
        match around[k] {
            None => {},
            Some(target) => {
                relax(nodes, index, from, target, goal);
            },
        }
        proof {
            assert forall|j: int| 0 <= j < before.len() implies #[trigger] nodes@[j] == (if among(
                around,
                k + 1,
                before[j].pos,
            ) {
                relaxed(before[j], from, goal)
            } else {
                before[j]
            }) by {
                let tile = before[j].pos;
                assert(mid[j].pos == tile);
                if around[k as int] == Some(tile) {
                    assert(among(around, k + 1, tile));
                } else if among(around, k as int, tile) {
                    let m = choose|m: int| 0 <= m < k && around[m] == Some(tile);
                    assert(0 <= m < k + 1 && around[m] == Some(tile));
                }
            }
        }
        k += 1;
    }
    proof {
        assert forall|j: int| 0 <= j < before.len() implies (among(around, 4, before[j].pos)
            <==> adjacent(from.pos, before[j].pos)) by {
            let tile = before[j].pos;
            lemma_adjacent_is_edge_neighbor(from.pos, tile);
            if adjacent(from.pos, tile) {
                let m: int = if around[0] == Some(tile) {
                    0
                } else if around[1] == Some(tile) {
                    1
                } else if around[2] == Some(tile) {
                    2
                } else {
                    3
                };
                assert(0 <= m < 4 && around[m] == Some(tile));
            }
        }
    }
}

} // verus!
