//! Tile coordinates and the geometry of the four-connected grid.

use vstd::prelude::*;

verus! {

/// The position of a tile, in map coordinates.
#[derive(Default, Clone, Copy, PartialEq, Eq, Structural, Debug, Hash)]
pub struct TilePos(pub u32, pub u32);

/// Absolute difference of two coordinates.
pub open spec fn gap(a: u32, b: u32) -> int {
    if a >= b {
        a - b
    } else {
        b - a
    }
}

/// Manhattan distance: the sum of the absolute coordinate differences.
pub open spec fn manhattan(a: TilePos, b: TilePos) -> int {
    gap(a.0, b.0) + gap(a.1, b.1)
}

/// Two tiles are adjacent when they share an edge.
pub open spec fn adjacent(a: TilePos, b: TilePos) -> bool {
    manhattan(a, b) == 1
}

/// The tile above `p`, unless `p` lies on the upper edge of the coordinate space.
pub open spec fn north(p: TilePos) -> Option<TilePos> {
    if p.1 != u32::MAX {
        Some(TilePos(p.0, (p.1 + 1) as u32))
    } else {
        None
    }
}

/// The tile below `p`, unless `p` lies on the lower edge.
pub open spec fn south(p: TilePos) -> Option<TilePos> {
    if p.1 != 0 {
        Some(TilePos(p.0, (p.1 - 1) as u32))
    } else {
        None
    }
}

/// The tile left of `p`, unless `p` lies on the left edge.
pub open spec fn west(p: TilePos) -> Option<TilePos> {
    if p.0 != 0 {
        Some(TilePos((p.0 - 1) as u32, p.1))
    } else {
        None
    }
}

/// The tile right of `p`, unless `p` lies on the right edge.
pub open spec fn east(p: TilePos) -> Option<TilePos> {
    if p.0 != u32::MAX {
        Some(TilePos((p.0 + 1) as u32, p.1))
    } else {
        None
    }
}

/// The diagonal neighbour above and to the left of `p`.
pub open spec fn north_west(p: TilePos) -> Option<TilePos> {
    if p.0 != 0 && p.1 != u32::MAX {
        Some(TilePos((p.0 - 1) as u32, (p.1 + 1) as u32))
    } else {
        None
    }
}

/// The diagonal neighbour above and to the right of `p`.
pub open spec fn north_east(p: TilePos) -> Option<TilePos> {
    if p.0 != u32::MAX && p.1 != u32::MAX {
        Some(TilePos((p.0 + 1) as u32, (p.1 + 1) as u32))
    } else {
        None
    }
}

/// The diagonal neighbour below and to the left of `p`.
pub open spec fn south_west(p: TilePos) -> Option<TilePos> {
    if p.0 != 0 && p.1 != 0 {
        Some(TilePos((p.0 - 1) as u32, (p.1 - 1) as u32))
    } else {
        None
    }
}

/// The diagonal neighbour below and to the right of `p`.
pub open spec fn south_east(p: TilePos) -> Option<TilePos> {
    if p.0 != u32::MAX && p.1 != 0 {
        Some(TilePos((p.0 + 1) as u32, (p.1 - 1) as u32))
    } else {
        None
    }
}

/// The positions around `pos`, in the order N, S, W, E, NW, NE, SW, SE.
///
/// Calls `bevy_ecs_tilemap::prelude::get_neighboring_pos`. The contract
/// restates that function entry by entry: a neighbour is present exactly when
/// stepping to it keeps both coordinates inside `0..=u32::MAX`.
#[verifier::external_body]
fn neighboring_pos(pos: TilePos) -> (around: [Option<TilePos>; 8])
    ensures
        around[0] == north(pos),
        around[1] == south(pos),
        around[2] == west(pos),
        around[3] == east(pos),
        around[4] == north_west(pos),
        around[5] == north_east(pos),
        around[6] == south_west(pos),
        around[7] == south_east(pos),
{
    let center = bevy_ecs_tilemap::TilePos(pos.0, pos.1);
    let found = bevy_ecs_tilemap::prelude::get_neighboring_pos(center);
    found.map(|entry| entry.map(|p| TilePos(p.0, p.1)))
}

/// The edge-sharing neighbours of `pos`, in the order N, S, W, E.
pub fn edge_neighbors(pos: TilePos) -> (out: [Option<TilePos>; 4])
    ensures
        out[0] == north(pos),
        out[1] == south(pos),
        out[2] == west(pos),
        out[3] == east(pos),
{
    let around = neighboring_pos(pos);
    [around[0], around[1], around[2], around[3]]
}

/// Estimated remaining cost from `curr` to `target`: their Manhattan distance.
pub fn calculate_heuristic_score(curr: TilePos, target: TilePos) -> (h: u64)
    ensures
        h == manhattan(curr, target),
{
    let dx: u32 = if curr.0 >= target.0 { curr.0 - target.0 } else { target.0 - curr.0 };
    let dy: u32 = if curr.1 >= target.1 { curr.1 - target.1 } else { target.1 - curr.1 };
    dx as u64 + dy as u64
}

/// The adjacent tiles of `a` are exactly its N, S, W and E neighbours.
pub proof fn lemma_adjacent_is_edge_neighbor(a: TilePos, b: TilePos)
    ensures
        adjacent(a, b) <==> (north(a) == Some(b) || south(a) == Some(b) || west(a) == Some(b)
            || east(a) == Some(b)),
{
}

/// Adjacency is symmetric.
pub proof fn lemma_adjacent_symmetric(a: TilePos, b: TilePos)
    ensures
        adjacent(a, b) == adjacent(b, a),
{
}

/// Manhattan distance is a metric: it is never negative, zero between a tile
/// and itself only, symmetric, and it obeys the triangle inequality.
pub proof fn lemma_manhattan_triangle(a: TilePos, b: TilePos, c: TilePos)
    ensures
        manhattan(a, c) <= manhattan(a, b) + manhattan(b, c),
        manhattan(a, b) == manhattan(b, a),
        manhattan(a, b) >= 0,
        manhattan(a, b) == 0 <==> a == b,
{
}

} // verus!
