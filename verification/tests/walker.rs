use tile_pathfinding::actor::{iso_to_world, move_player, Actor, WorldPos};
use tile_pathfinding::pathfinding::{pathfinding, Destination, TilePath};
use tile_pathfinding::tile::TilePos;

fn line() -> Vec<TilePos> {
    vec![TilePos(0, 0), TilePos(1, 0), TilePos(2, 0), TilePos(3, 0)]
}

fn at_origin() -> Actor {
    Actor::new(WorldPos { x: 0, y: 0, layer: 100 })
}

#[test]
fn projection_of_known_tiles() {
    assert_eq!(iso_to_world(&TilePos(0, 0)), (0, 0));
    assert_eq!(iso_to_world(&TilePos(3, 0)), (24, -12));
    assert_eq!(iso_to_world(&TilePos(0, 3)), (-24, -12));
    assert_eq!(iso_to_world(&TilePos(5, 2)), (24, -28));
    assert_eq!(
        iso_to_world(&TilePos(u32::MAX, 0)),
        (8 * (u32::MAX as i64), -4 * (u32::MAX as i64))
    );
    assert_eq!(
        iso_to_world(&TilePos(u32::MAX, u32::MAX)),
        (0, -8 * (u32::MAX as i64))
    );
}

#[test]
fn new_actor_is_idle() {
    let actor = at_origin();
    assert_eq!(actor.position, WorldPos { x: 0, y: 0, layer: 100 });
    assert_eq!(actor.destination, None);
    assert_eq!(actor.path, None);
}

#[test]
fn go_to_attaches_request_and_drops_route() {
    let mut actor = at_origin();
    actor.path = Some(TilePath(vec![TilePos(1, 0)]));
    actor.go_to(TilePos(0, 0), TilePos(3, 0));
    assert_eq!(
        actor.destination,
        Some(Destination { start: TilePos(0, 0), goal: TilePos(3, 0) })
    );
    assert_eq!(actor.path, None);
    assert_eq!(actor.position, WorldPos { x: 0, y: 0, layer: 100 });
}

#[test]
fn advance_takes_one_tile_per_step() {
    let mut actor = Actor::new(WorldPos { x: 7, y: 9, layer: 3 });
    actor.path = Some(TilePath(vec![TilePos(3, 0), TilePos(2, 0), TilePos(1, 0)]));
    assert_eq!(actor.advance(), Some(TilePos(1, 0)));
    assert_eq!(actor.position, WorldPos { x: 8, y: -4, layer: 3 });
    assert_eq!(actor.path, Some(TilePath(vec![TilePos(3, 0), TilePos(2, 0)])));
    assert_eq!(actor.advance(), Some(TilePos(2, 0)));
    assert_eq!(actor.position, WorldPos { x: 16, y: -8, layer: 3 });
    assert_eq!(actor.path, Some(TilePath(vec![TilePos(3, 0)])));
    assert_eq!(actor.advance(), Some(TilePos(3, 0)));
    assert_eq!(actor.position, WorldPos { x: 24, y: -12, layer: 3 });
    assert_eq!(actor.path, None);
    assert_eq!(actor.advance(), None);
    assert_eq!(actor.position, WorldPos { x: 24, y: -12, layer: 3 });
    assert_eq!(actor.path, None);
}

#[test]
fn advance_keeps_a_pending_request() {
    let mut actor = at_origin();
    actor.destination = Some(Destination::new(TilePos(0, 0), TilePos(1, 1)));
    actor.advance();
    assert_eq!(actor.destination, Some(Destination::new(TilePos(0, 0), TilePos(1, 1))));
    assert_eq!(actor.position, WorldPos { x: 0, y: 0, layer: 100 });
}

#[test]
fn advance_drops_an_empty_route_without_moving() {
    let mut actor = Actor::new(WorldPos { x: 5, y: 6, layer: 7 });
    actor.path = Some(TilePath(Vec::new()));
    assert_eq!(actor.advance(), None);
    assert_eq!(actor.path, None);
    assert_eq!(actor.position, WorldPos { x: 5, y: 6, layer: 7 });
}

#[test]
fn straight_line_request_is_routed_and_walked() {
    let mut actor = at_origin();
    actor.go_to(TilePos(0, 0), TilePos(3, 0));
    let mut actors = vec![actor];
    pathfinding(&mut actors, &line());
    assert_eq!(actors[0].destination, None);
    assert_eq!(
        actors[0].path,
        Some(TilePath(vec![TilePos(3, 0), TilePos(2, 0), TilePos(1, 0)]))
    );
    move_player(&mut actors);
    move_player(&mut actors);
    assert!(actors[0].path.is_some());
    move_player(&mut actors);
    let (x, y) = iso_to_world(&TilePos(3, 0));
    assert_eq!(actors[0].position, WorldPos { x, y, layer: 100 });
    assert_eq!(actors[0].path, None);
    assert_eq!(actors[0].destination, None);
}

#[test]
fn request_for_a_missing_goal_is_deleted() {
    let mut actor = at_origin();
    actor.go_to(TilePos(0, 0), TilePos(5, 5));
    let mut actors = vec![actor];
    pathfinding(&mut actors, &line());
    assert_eq!(actors[0].destination, None);
    assert_eq!(actors[0].path, None);
    assert_eq!(actors[0].position, WorldPos { x: 0, y: 0, layer: 100 });
}

#[test]
fn request_across_disconnected_regions_is_deleted() {
    let tiles = vec![
        TilePos(0, 0),
        TilePos(1, 0),
        TilePos(0, 1),
        TilePos(1, 1),
        TilePos(5, 5),
        TilePos(6, 5),
        TilePos(5, 6),
        TilePos(6, 6),
    ];
    let mut actor = at_origin();
    actor.go_to(TilePos(0, 0), TilePos(6, 6));
    let mut actors = vec![actor];
    pathfinding(&mut actors, &tiles);
    assert_eq!(actors[0].destination, None);
    assert_eq!(actors[0].path, None);
}

#[test]
fn enclosed_goal_is_unreachable() {
    let mut tiles = Vec::new();
    for x in 0..5 {
        for y in 0..5 {
            let ring = (x == 1 || x == 3) && (1..=3).contains(&y) || (y == 1 || y == 3) && x == 2;
            if !ring {
                tiles.push(TilePos(x, y));
            }
        }
    }
    let mut actor = at_origin();
    actor.go_to(TilePos(0, 0), TilePos(2, 2));
    actor.resolve(&tiles);
    assert_eq!(actor.destination, None);
    assert_eq!(actor.path, None);
}

#[test]
fn router_leaves_actors_without_request_alone() {
    let mut walking = Actor::new(WorldPos { x: 1, y: 2, layer: 3 });
    walking.path = Some(TilePath(vec![TilePos(2, 0), TilePos(1, 0)]));
    let idle = at_origin();
    let mut asking = Actor::new(WorldPos { x: 8, y: -4, layer: 0 });
    asking.go_to(TilePos(1, 0), TilePos(1, 0));
    let mut actors = vec![walking.clone(), idle.clone(), asking];
    pathfinding(&mut actors, &line());
    assert_eq!(actors[0], walking);
    assert_eq!(actors[1], idle);
    assert_eq!(actors[2].destination, None);
    assert_eq!(actors[2].path, Some(TilePath(vec![TilePos(1, 0)])));
    assert_eq!(actors[2].position, WorldPos { x: 8, y: -4, layer: 0 });
}

#[test]
fn same_tile_request_moves_the_actor_nowhere() {
    let (x, y) = iso_to_world(&TilePos(2, 0));
    let mut actor = Actor::new(WorldPos { x, y, layer: 100 });
    actor.go_to(TilePos(2, 0), TilePos(2, 0));
    actor.resolve(&line());
    assert_eq!(actor.path, Some(TilePath(vec![TilePos(2, 0)])));
    actor.advance();
    assert_eq!(actor.position, WorldPos { x, y, layer: 100 });
    assert_eq!(actor.path, None);
}

#[test]
fn walker_moves_every_actor_with_a_route() {
    let mut first = at_origin();
    first.path = Some(TilePath(vec![TilePos(1, 1), TilePos(1, 0)]));
    let second = Actor::new(WorldPos { x: -3, y: 4, layer: 1 });
    let mut third = Actor::new(WorldPos { x: 0, y: 0, layer: 2 });
    third.path = Some(TilePath(vec![TilePos(0, 2)]));
    let mut actors = vec![first, second.clone(), third];
    move_player(&mut actors);
    assert_eq!(actors[0].position, WorldPos { x: 8, y: -4, layer: 100 });
    assert_eq!(actors[0].path, Some(TilePath(vec![TilePos(1, 1)])));
    assert_eq!(actors[1], second);
    assert_eq!(actors[2].position, WorldPos { x: -16, y: -8, layer: 2 });
    assert_eq!(actors[2].path, None);
}
