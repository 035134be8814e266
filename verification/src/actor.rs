//! Actors and the walker, which moves an actor along its route one tile per
//! step.

use vstd::prelude::*;
use crate::pathfinding::{Destination, TilePath};
use crate::tile::TilePos;

verus! {

/// A position in world space: two planar coordinates and the layer on which
/// the actor is drawn.
#[derive(Default, Debug, Clone, Copy, PartialEq, Eq, Structural)]
pub struct WorldPos {
    pub x: i64,
    pub y: i64,
    pub layer: i64,
}

/// The planar world coordinates of a tile in the isometric projection.
pub open spec fn projected(tile: TilePos) -> (int, int) {
    ((tile.0 - tile.1) * 8, -(tile.1 + tile.0) * 4)
}

/// The world position of `tile` on `layer`.
pub open spec fn placed(tile: TilePos, layer: i64) -> WorldPos {
    WorldPos { x: projected(tile).0 as i64, y: projected(tile).1 as i64, layer }
}

/// Projects a tile coordinate to planar world coordinates.
pub fn iso_to_world(p: &TilePos) -> (world: (i64, i64))
    ensures
        world.0 == projected(*p).0,
        world.1 == projected(*p).1,
{
    let x: i64 = p.0 as i64;
    let y: i64 = p.1 as i64;
    ((x - y) * 8, -(y + x) * 4)
}

/// Something that moves over the grid. It carries at most one of a pending
/// request and a route.
#[derive(Default, Debug, Clone, PartialEq, Eq)]
pub struct Actor {
    pub position: WorldPos,
    pub destination: Option<Destination>,
    pub path: Option<TilePath>,
}

/// An actor as contracts see it: the route is a sequence of tiles.
pub struct ActorView {
    pub position: WorldPos,
    pub destination: Option<Destination>,
    pub path: Option<Seq<TilePos>>,
}

impl View for Actor {
    type V = ActorView;

    open spec fn view(&self) -> ActorView {
        ActorView {
            position: self.position,
            destination: self.destination,
            path: match self.path {
                Some(path) => Some(path@),
                None => None,
            },
        }
    }
}

impl ActorView {
    /// The actor does not carry a request and a route at once.
    pub open spec fn consistent(self) -> bool {
        !(self.destination is Some && self.path is Some)
    }
}

/// The actor after it has been asked to go from `start` to `goal`: the
/// request is attached and any route it held is gone.
pub open spec fn requested(actor: ActorView, start: TilePos, goal: TilePos) -> ActorView {
    ActorView {
        position: actor.position,
        destination: Some(Destination { start, goal }),
        path: None,
    }
}

/// The actor after one step of the walker. The last tile of the route is
/// taken off and the actor stands on it, on the layer it was on. A route that
/// has run out is dropped. An actor without a route is left as it is.
pub open spec fn advanced(actor: ActorView) -> ActorView {
    match actor.path {
        None => actor,
        Some(route) => if route.len() == 0 {
            ActorView { path: None, ..actor }
        } else {
            ActorView {
                position: placed(route[route.len() - 1], actor.position.layer),
                destination: actor.destination,
                path: if route.len() == 1 {
                    None
                } else {
                    Some(route.drop_last())
                },
            }
        },
    }
}

/// The tile that the next step of the walker puts the actor on, if the actor
/// has a route with a tile left.
pub open spec fn next_tile(actor: ActorView) -> Option<TilePos> {
    match actor.path {
        Some(route) if route.len() > 0 => Some(route[route.len() - 1]),
        _ => None,
    }
}

impl Actor {
    /// Creates an actor at `position` with neither a request nor a route.
    pub fn new(position: WorldPos) -> (actor: Actor)
        ensures
            actor@ == (ActorView { position, destination: None, path: None }),
    {
        Actor { position, destination: None, path: None }
    }

    /// Attaches the request to go from `start` to `goal`, replacing any route
    /// the actor holds.
    pub fn go_to(&mut self, start: TilePos, goal: TilePos)
        ensures
            final(self)@ == requested(old(self)@, start, goal),
    {
        self.destination = Some(Destination::new(start, goal));
        self.path = None;
    }

    /// Moves the actor one tile along its route and tells which tile it
    /// has been put on, if any.
    pub fn advance(&mut self) -> (onto: Option<TilePos>)
        ensures
            final(self)@ == advanced(old(self)@),
            onto == next_tile(old(self)@),
    {
        match self.path.take() {
            None => None,
            Some(path) => {
                let mut route = path.0;
                match route.pop() {
                    None => None,
                    Some(tile) => {
                        let world = iso_to_world(&tile);
                        self.position = WorldPos { x: world.0, y: world.1, layer: self.position.layer };
                        if route.len() > 0 {
                            self.path = Some(TilePath(route));
                        }
                        Some(tile)
                    },
                }
            },
        }
    }
}

/// One step of the walker: moves every actor one tile along its route.
pub fn move_player(actors: &mut Vec<Actor>)
    ensures
        final(actors)@.len() == old(actors)@.len(),
        forall|i: int|
            0 <= i < old(actors)@.len() ==> #[trigger] final(actors)@[i]@ == advanced(
                old(actors)@[i]@,
            ),
{
    let mut k: usize = 0;
    while k < actors.len()
        invariant
            k <= actors@.len(),
            actors@.len() == old(actors)@.len(),
            forall|i: int| 0 <= i < k ==> #[trigger] actors@[i]@ == advanced(old(actors)@[i]@),
            forall|i: int| k <= i < actors@.len() ==> #[trigger] actors@[i] == old(actors)@[i],
        decreases actors@.len() - k,
    {
        actors[k].advance();
        k += 1;
    }
}

} // verus!
