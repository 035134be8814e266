//! A lookup table from tile coordinates to slots of a node arena.
//!
//! The table is Bevy's hash map, keyed by a 64-bit packing of the coordinate.
//! The three calls into the map are the only unproved part; everything above
//! them is proved from their contracts.

use bevy::utils::HashMap;
use vstd::prelude::*;
use crate::tile::TilePos;

verus! {

/// The hasher state inside `bevy::utils::HashMap`; carried, never inspected.
#[verifier::external_type_specification]
#[verifier::external_body]
pub struct ExRandomState(ahash::RandomState);

/// The 64-bit key of a tile: first coordinate in the high half, second in the low half.
pub open spec fn tile_key(p: TilePos) -> u64 {
    (p.0 * 0x1_0000_0000 + p.1) as u64
}

/// Distinct tiles have distinct keys.
pub proof fn lemma_tile_key_injective(a: TilePos, b: TilePos)
    ensures
        tile_key(a) == tile_key(b) <==> a == b,
{
}

/// Computes the key of `p`.
pub fn key_of(p: TilePos) -> (k: u64)
    ensures
        k == tile_key(p),
{
    p.0 as u64 * 0x1_0000_0000 + p.1 as u64
}

/// An empty map.
///
/// Calls `Default::default` of `bevy::utils::HashMap`, which is std's
/// `HashMap::default`: the new map holds no key.
#[verifier::external_body]
fn slots_new() -> (m: HashMap<u64, usize>)
    ensures
        forall|k: u64| !m@.contains_key(k),
{
    HashMap::default()
}

/// Binds `key` to `slot`.
///
/// Calls `insert` of `bevy::utils::HashMap` (std's `HashMap::insert`): the
/// key is bound to the new value, replacing any earlier binding, and every
/// other key keeps its binding.
#[verifier::external_body]
fn slots_insert(m: &mut HashMap<u64, usize>, key: u64, slot: usize)
    ensures
        final(m)@ == old(m)@.insert(key, slot),
{
    m.insert(key, slot);
}

/// The slot bound to `key`, if any.
///
/// Calls `get` of `bevy::utils::HashMap` (std's `HashMap::get`): the value
/// bound to the key, or `None` when the key is absent.
#[verifier::external_body]
fn slots_get(m: &HashMap<u64, usize>, key: u64) -> (found: Option<usize>)
    ensures
        found == (if m@.contains_key(key) { Some(m@[key]) } else { None::<usize> }),
{
    m.get(&key).copied()
}

/// A map from tile coordinates to arena slots.
pub struct TileIndex {
    slots: HashMap<u64, usize>,
}

impl View for TileIndex {
    type V = Map<TilePos, usize>;

    closed spec fn view(&self) -> Map<TilePos, usize> {
        Map::new(
            |p: TilePos| self.slots@.contains_key(tile_key(p)),
            |p: TilePos| self.slots@[tile_key(p)],
        )
    }
}

impl TileIndex {
    /// Creates an index that knows no tile.
    pub fn new() -> (index: TileIndex)
        ensures
            forall|p: TilePos| !index@.contains_key(p),
    {
        TileIndex { slots: slots_new() }
    }

    /// Records that `pos` lives in `slot`, replacing any earlier record for `pos`.
    pub fn insert(&mut self, pos: TilePos, slot: usize)
        ensures
            final(self)@ == old(self)@.insert(pos, slot),
    {
        let key = key_of(pos);
        slots_insert(&mut self.slots, key, slot);
        proof {
            assert forall|p: TilePos| tile_key(p) == key implies p == pos by {
                lemma_tile_key_injective(p, pos);
            }
            assert(self@ =~= old(self)@.insert(pos, slot));
        }
    }

    /// Looks up the slot recorded for `pos`.
    pub fn get(&self, pos: TilePos) -> (found: Option<usize>)
        ensures
            found == (if self@.contains_key(pos) { Some(self@[pos]) } else { None::<usize> }),
    {
        slots_get(&self.slots, key_of(pos))
    }
}

} // verus!
