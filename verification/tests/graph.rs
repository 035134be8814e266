use tile_pathfinding::assets::{Animation, AssetState};
use tile_pathfinding::graph::{calculate_score, expand, relax, select, Graph, Node};
use tile_pathfinding::index::{key_of, TileIndex};
use tile_pathfinding::pathfinding::{contains_tile, path_highlight, reconstruct, Destination, TilePath};
use tile_pathfinding::tile::TilePos;

#[test]
fn new_node_is_unreached() {
    let node = Node::new(TilePos(4, 9));
    assert_eq!(node.pos, TilePos(4, 9));
    assert_eq!(node.score, u64::MAX);
    assert_eq!(node.heuristic_score, u128::MAX);
    assert!(!node.visited);
    assert_eq!(node.previous_pos, None);
}

#[test]
fn destination_new_keeps_both_tiles() {
    let request = Destination::new(TilePos(1, 2), TilePos(3, 4));
    assert_eq!(request.start, TilePos(1, 2));
    assert_eq!(request.goal, TilePos(3, 4));
}

#[test]
fn score_is_one_more_than_the_node_entered_from() {
    let mut node = Node::new(TilePos(0, 0));
    node.score = 41;
    assert_eq!(calculate_score(&node), 42);
}

#[test]
fn keys_pack_both_coordinates() {
    assert_eq!(key_of(TilePos(0, 0)), 0);
    assert_eq!(key_of(TilePos(0, 7)), 7);
    assert_eq!(key_of(TilePos(1, 0)), 1 << 32);
    assert_eq!(key_of(TilePos(3, 5)), (3 << 32) + 5);
    assert_eq!(key_of(TilePos(u32::MAX, u32::MAX)), u64::MAX);
}

#[test]
fn index_finds_what_was_inserted() {
    let mut index = TileIndex::new();
    assert_eq!(index.get(TilePos(1, 2)), None);
    index.insert(TilePos(1, 2), 5);
    index.insert(TilePos(2, 1), 6);
    assert_eq!(index.get(TilePos(1, 2)), Some(5));
    assert_eq!(index.get(TilePos(2, 1)), Some(6));
    assert_eq!(index.get(TilePos(2, 2)), None);
    index.insert(TilePos(1, 2), 9);
    assert_eq!(index.get(TilePos(1, 2)), Some(9));
    assert_eq!(index.get(TilePos(2, 1)), Some(6));
}

#[test]
fn build_seeds_the_start_and_keeps_each_tile_once() {
    let tiles = vec![TilePos(1, 0), TilePos(0, 0), TilePos(1, 0), TilePos(2, 0)];
    let graph = Graph::build(&tiles, TilePos(0, 0));
    assert_eq!(graph.nodes.len(), 3);
    assert_eq!(
        graph.nodes[0],
        Node { pos: TilePos(0, 0), score: 0, heuristic_score: 0, visited: false, previous_pos: None }
    );
    assert_eq!(graph.nodes[1], Node::new(TilePos(1, 0)));
    assert_eq!(graph.nodes[2], Node::new(TilePos(2, 0)));
    assert_eq!(graph.index.get(TilePos(0, 0)), Some(0));
    assert_eq!(graph.index.get(TilePos(1, 0)), Some(1));
    assert_eq!(graph.index.get(TilePos(2, 0)), Some(2));
    assert_eq!(graph.index.get(TilePos(3, 0)), None);
}

#[test]
fn select_takes_the_first_of_the_lowest_unvisited() {
    let mut nodes = vec![
        Node::new(TilePos(0, 0)),
        Node::new(TilePos(1, 0)),
        Node::new(TilePos(2, 0)),
        Node::new(TilePos(3, 0)),
    ];
    assert_eq!(select(&nodes), None);
    nodes[0].heuristic_score = 1;
    nodes[0].visited = true;
    nodes[1].heuristic_score = 7;
    nodes[2].heuristic_score = 5;
    nodes[3].heuristic_score = 5;
    assert_eq!(select(&nodes), Some(2));
    nodes[2].visited = true;
    assert_eq!(select(&nodes), Some(3));
    nodes[3].visited = true;
    assert_eq!(select(&nodes), Some(1));
    nodes[1].visited = true;
    assert_eq!(select(&nodes), None);
}

#[test]
fn select_on_a_fresh_graph_takes_the_start() {
    let graph = Graph::build(&vec![TilePos(4, 4), TilePos(0, 0)], TilePos(0, 0));
    assert_eq!(select(&graph.nodes), Some(0));
}

#[test]
fn relax_improves_only_unvisited_nodes_that_gain() {
    let tiles = vec![TilePos(0, 0), TilePos(1, 0), TilePos(0, 1)];
    let goal = TilePos(3, 0);
    let Graph { mut nodes, index } = Graph::build(&tiles, TilePos(0, 0));
    let from = nodes[0];
    relax(&mut nodes, &index, from, TilePos(1, 0), goal);
    assert_eq!(
        nodes[1],
        Node {
            pos: TilePos(1, 0),
            score: 1,
            heuristic_score: 3,
            visited: false,
            previous_pos: Some(TilePos(0, 0)),
        }
    );
    assert_eq!(nodes[2], Node::new(TilePos(0, 1)));
    // A tile that does not exist is skipped.
    relax(&mut nodes, &index, from, TilePos(9, 9), goal);
    assert_eq!(nodes.len(), 3);
    // No gain, no change.
    let mut worse = from;
    worse.score = 5;
    worse.pos = TilePos(2, 0);
    relax(&mut nodes, &index, worse, TilePos(1, 0), goal);
    assert_eq!(nodes[1].score, 1);
    assert_eq!(nodes[1].previous_pos, Some(TilePos(0, 0)));
    // A visited node is left alone.
    nodes[2].visited = true;
    relax(&mut nodes, &index, from, TilePos(0, 1), goal);
    assert_eq!(nodes[2].score, u64::MAX);
}

#[test]
fn expand_reaches_the_four_edge_neighbours_only() {
    let mut tiles = Vec::new();
    for x in 0..3 {
        for y in 0..3 {
            tiles.push(TilePos(x, y));
        }
    }
    let goal = TilePos(2, 2);
    let Graph { mut nodes, index } = Graph::build(&tiles, TilePos(1, 1));
    expand(&mut nodes, &index, 0, goal);
    for node in nodes.iter().skip(1) {
        let dx = node.pos.0.abs_diff(1);
        let dy = node.pos.1.abs_diff(1);
        if dx + dy == 1 {
            assert_eq!(node.score, 1);
            assert_eq!(node.previous_pos, Some(TilePos(1, 1)));
            let rest = (node.pos.0.abs_diff(2) + node.pos.1.abs_diff(2)) as u128;
            assert_eq!(node.heuristic_score, 1 + rest);
        } else {
            assert_eq!(*node, Node::new(node.pos));
        }
    }
}

#[test]
fn reconstruct_follows_the_links_back() {
    let tiles = vec![TilePos(0, 0), TilePos(1, 0), TilePos(2, 0)];
    let Graph { mut nodes, index } = Graph::build(&tiles, TilePos(0, 0));
    let goal = TilePos(2, 0);
    nodes[0].visited = true;
    expand(&mut nodes, &index, 0, goal);
    nodes[1].visited = true;
    expand(&mut nodes, &index, 1, goal);
    assert_eq!(
        reconstruct(&nodes, &index, TilePos(0, 0), goal, 2),
        vec![TilePos(2, 0), TilePos(1, 0)]
    );
}

#[test]
fn contains_tile_looks_through_all_tiles() {
    let tiles = vec![TilePos(0, 0), TilePos(4, 2)];
    assert!(contains_tile(&tiles, TilePos(4, 2)));
    assert!(contains_tile(&tiles, TilePos(0, 0)));
    assert!(!contains_tile(&tiles, TilePos(2, 4)));
    assert!(!contains_tile(&Vec::new(), TilePos(0, 0)));
}

#[test]
fn highlight_marks_the_tiles_on_any_route() {
    let tiles = vec![TilePos(0, 0), TilePos(1, 0), TilePos(2, 0), TilePos(0, 1), TilePos(1, 1)];
    let routes = vec![
        TilePath(vec![TilePos(2, 0), TilePos(1, 0)]),
        TilePath(Vec::new()),
        TilePath(vec![TilePos(1, 1), TilePos(1, 0), TilePos(7, 7)]),
    ];
    assert_eq!(path_highlight(&tiles, &routes), vec![false, true, true, false, true]);
    assert_eq!(path_highlight(&tiles, &Vec::new()), vec![false; 5]);
    assert_eq!(path_highlight(&Vec::new(), &routes), Vec::<bool>::new());
}

#[test]
fn animation_frames_and_repeats() {
    assert_eq!(
        Animation::Idle.frames(),
        vec![
            "characters/basic/basic_idle_01.png",
            "characters/basic/basic_idle_02.png",
            "characters/basic/basic_idle_03.png",
            "characters/basic/basic_idle_04.png",
        ]
    );
    assert_eq!(Animation::Walk.frames().len(), 8);
    assert_eq!(Animation::Walk.frames()[7], "characters/basic/basic_run_08.png");
    assert_eq!(Animation::Jump.frames().len(), 10);
    assert_eq!(Animation::Jump.frames()[9], "characters/basic/basic_jump_10.png");
    assert_eq!(Animation::Dance.frames(), Animation::Jump.frames());
    assert!(Animation::Idle.repeats());
    assert!(Animation::Walk.repeats());
    assert!(Animation::Dance.repeats());
    assert!(!Animation::Jump.repeats());
    assert_eq!(Animation::default(), Animation::Idle);
}

#[test]
fn asset_states_are_distinct() {
    assert_ne!(AssetState::Initial, AssetState::Loading);
    assert_ne!(AssetState::Loading, AssetState::Loaded);
    assert_ne!(AssetState::Initial, AssetState::Loaded);
}
