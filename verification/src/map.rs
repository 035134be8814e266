//! The tiles of a full rectangular map.

use vstd::prelude::*;
use crate::tile::TilePos;
use crate::walk::tile_set;

verus! {

/// The tiles of column `x` of a map that is `height` tiles high, from the
/// bottom up.
pub open spec fn column(x: u32, height: u32) -> Seq<TilePos> {
    Seq::new(height as nat, |y: int| TilePos(x, y as u32))
}

/// The tiles of a map that is `width` tiles wide and `height` tiles high,
/// column by column from the left.
pub open spec fn grid(width: u32, height: u32) -> Seq<TilePos>
    decreases width,
{
    if width == 0 {
        Seq::<TilePos>::empty()
    } else {
        grid((width - 1) as u32, height) + column((width - 1) as u32, height)
    }
}

/// The grid holds exactly the tiles whose coordinates lie below its width
/// and height.
pub proof fn lemma_grid_tiles(width: u32, height: u32)
    ensures
        forall|p: TilePos| grid(width, height).contains(p) <==> p.0 < width && p.1 < height,
    decreases width,
{
    let all = grid(width, height);
    if width == 0 {
        assert forall|p: TilePos| !all.contains(p) by {}
    } else {
        let x = (width - 1) as u32;
        let left = grid(x, height);
        let last = column(x, height);
        lemma_grid_tiles(x, height);
        assert forall|p: TilePos| all.contains(p) <==> p.0 < width && p.1 < height by {
            if all.contains(p) {
                let i = choose|i: int| 0 <= i < all.len() && all[i] == p;
                if i < left.len() {
                    assert(left[i] == p);
                    assert(left.contains(p));
                } else {
                    assert(last[i - left.len()] == p);
                }
            }
            if p.0 < width && p.1 < height {
                if p.0 < x {
                    assert(left.contains(p));
                    let i = choose|i: int| 0 <= i < left.len() && left[i] == p;
                    assert(all[i] == p);
                } else {
                    assert(last[p.1 as int] == p);
                    assert(all[left.len() + p.1] == p);
                }
            }
        }
    }
}

/// Lists the tiles of a map that is `width` tiles wide and `height` tiles
/// high.
pub fn map_positions(width: u32, height: u32) -> (tiles: Vec<TilePos>)
    ensures
        tiles@ == grid(width, height),
        forall|p: TilePos| tile_set(tiles@).contains(p) <==> p.0 < width && p.1 < height,
{
    let mut tiles: Vec<TilePos> = Vec::new();
    let mut x: u32 = 0;
    while x < width
        invariant
            x <= width,
            tiles@ == grid(x, height),
        decreases width - x,
    {
        let mut y: u32 = 0;
        while y < height
            invariant
                x < width,
                y <= height,
                tiles@ == grid(x, height) + column(x, height).take(y as int),
            decreases height - y,
        {
            tiles.push(TilePos(x, y));
            assert(column(x, height).take(y as int).push(TilePos(x, y)) == column(x, height).take(
                y + 1,
            ));
            y += 1;
        }
        assert(column(x, height).take(height as int) == column(x, height));
        x += 1;
    }
    proof {
        lemma_grid_tiles(width, height);
    }
    tiles
}

} // verus!
