use tile_pathfinding::map::map_positions;
use tile_pathfinding::pathfinding::{find_route, TilePath};
use tile_pathfinding::tile::{calculate_heuristic_score, edge_neighbors, TilePos};

fn grid(width: u32, height: u32) -> Vec<TilePos> {
    map_positions(width, height)
}

#[test]
fn map_positions_go_column_by_column() {
    assert_eq!(
        map_positions(2, 3),
        vec![
            TilePos(0, 0),
            TilePos(0, 1),
            TilePos(0, 2),
            TilePos(1, 0),
            TilePos(1, 1),
            TilePos(1, 2),
        ]
    );
    assert_eq!(map_positions(0, 5), Vec::new());
    assert_eq!(map_positions(5, 0), Vec::new());
    assert_eq!(map_positions(64, 64).len(), 4096);
}

#[test]
fn equal_routes_are_chosen_by_the_order_of_the_tiles() {
    let up_first = vec![TilePos(0, 0), TilePos(0, 1), TilePos(1, 0), TilePos(1, 1)];
    assert_eq!(
        find_route(&up_first, TilePos(0, 0), TilePos(1, 1)),
        Some(TilePath(vec![TilePos(1, 1), TilePos(0, 1)]))
    );
    let right_first = vec![TilePos(0, 0), TilePos(1, 0), TilePos(0, 1), TilePos(1, 1)];
    assert_eq!(
        find_route(&right_first, TilePos(0, 0), TilePos(1, 1)),
        Some(TilePath(vec![TilePos(1, 1), TilePos(1, 0)]))
    );
}

#[test]
fn route_across_a_full_map() {
    let tiles = map_positions(64, 64);
    let route = find_route(&tiles, TilePos(0, 0), TilePos(63, 63)).expect("a full map is connected").0;
    assert_eq!(route.len(), 126);
    assert_eq!(route[0], TilePos(63, 63));
    assert_eq!(calculate_heuristic_score(*route.last().unwrap(), TilePos(0, 0)), 1);
    for pair in route.windows(2) {
        assert_eq!(calculate_heuristic_score(pair[0], pair[1]), 1);
    }
}

#[test]
fn straight_line_route_is_goal_first_and_excludes_start() {
    let tiles = vec![TilePos(0, 0), TilePos(1, 0), TilePos(2, 0), TilePos(3, 0)];
    let route = find_route(&tiles, TilePos(0, 0), TilePos(3, 0));
    assert_eq!(
        route,
        Some(TilePath(vec![TilePos(3, 0), TilePos(2, 0), TilePos(1, 0)]))
    );
}

#[test]
fn missing_goal_gives_no_route() {
    let tiles = grid(4, 4);
    assert_eq!(find_route(&tiles, TilePos(0, 0), TilePos(5, 5)), None);
}

#[test]
fn missing_start_gives_no_route() {
    let tiles = grid(4, 4);
    assert_eq!(find_route(&tiles, TilePos(9, 9), TilePos(1, 1)), None);
}

#[test]
fn disconnected_regions_give_no_route() {
    let mut tiles = Vec::new();
    for y in 0..3 {
        tiles.push(TilePos(0, y));
        tiles.push(TilePos(1, y));
        tiles.push(TilePos(3, y));
        tiles.push(TilePos(4, y));
    }
    assert_eq!(find_route(&tiles, TilePos(0, 0), TilePos(4, 2)), None);
}

#[test]
fn route_length_is_manhattan_distance_on_open_grid() {
    let tiles = grid(6, 5);
    for &(sx, sy, gx, gy) in &[(0, 0, 5, 4), (5, 4, 0, 0), (2, 3, 4, 1), (0, 4, 5, 0), (3, 3, 3, 0)] {
        let start = TilePos(sx, sy);
        let goal = TilePos(gx, gy);
        let route = find_route(&tiles, start, goal).expect("open grid is connected").0;
        assert_eq!(route.len() as u64, calculate_heuristic_score(start, goal));
        assert_eq!(route[0], goal);
        assert!(!route.contains(&start));
    }
}

#[test]
fn start_equal_to_goal_gives_the_single_tile_route() {
    let tiles = grid(3, 3);
    assert_eq!(
        find_route(&tiles, TilePos(1, 1), TilePos(1, 1)),
        Some(TilePath(vec![TilePos(1, 1)]))
    );
}

#[test]
fn route_goes_around_a_wall() {
    // A wall at x == 2 with a single gap at the top row.
    let mut tiles = Vec::new();
    for x in 0..5 {
        for y in 0..4 {
            if x != 2 || y == 3 {
                tiles.push(TilePos(x, y));
            }
        }
    }
    let start = TilePos(0, 0);
    let goal = TilePos(4, 0);
    let route = find_route(&tiles, start, goal).expect("the gap connects both sides").0;
    assert_eq!(route.len(), 10);
    assert_eq!(route[0], goal);
    assert!(route.contains(&TilePos(2, 3)));
    let mut at = start;
    for next in route.iter().rev() {
        assert_eq!(calculate_heuristic_score(at, *next), 1);
        assert!(tiles.contains(next));
        at = *next;
    }
    assert_eq!(at, goal);
}

#[test]
fn repeated_tiles_do_not_change_the_route() {
    let tiles = vec![
        TilePos(1, 0),
        TilePos(0, 0),
        TilePos(1, 0),
        TilePos(2, 0),
        TilePos(0, 0),
        TilePos(2, 0),
    ];
    assert_eq!(
        find_route(&tiles, TilePos(0, 0), TilePos(2, 0)),
        Some(TilePath(vec![TilePos(2, 0), TilePos(1, 0)]))
    );
}

#[test]
fn edge_neighbors_in_the_interior() {
    assert_eq!(
        edge_neighbors(TilePos(5, 7)),
        [
            Some(TilePos(5, 8)),
            Some(TilePos(5, 6)),
            Some(TilePos(4, 7)),
            Some(TilePos(6, 7)),
        ]
    );
}

#[test]
fn edge_neighbors_at_the_corners_of_the_coordinate_space() {
    assert_eq!(
        edge_neighbors(TilePos(0, 0)),
        [Some(TilePos(0, 1)), None, None, Some(TilePos(1, 0))]
    );
    assert_eq!(
        edge_neighbors(TilePos(u32::MAX, u32::MAX)),
        [
            None,
            Some(TilePos(u32::MAX, u32::MAX - 1)),
            Some(TilePos(u32::MAX - 1, u32::MAX)),
            None,
        ]
    );
}

#[test]
fn heuristic_is_the_manhattan_distance() {
    assert_eq!(calculate_heuristic_score(TilePos(1, 2), TilePos(4, 6)), 7);
    assert_eq!(calculate_heuristic_score(TilePos(4, 6), TilePos(1, 2)), 7);
    assert_eq!(calculate_heuristic_score(TilePos(3, 3), TilePos(3, 3)), 0);
    assert_eq!(
        calculate_heuristic_score(TilePos(0, 0), TilePos(u32::MAX, u32::MAX)),
        2 * (u32::MAX as u64)
    );
}
