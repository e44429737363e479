use maze_graph::maze::{Maze, MazeError};

/// Collects `(coordinate, exit_flag)` for every node, in id order.
fn nodes_of(maze: &Maze) -> Vec<((u32, u32), bool)> {
    let graph = maze.get_graph();
    let mut out = Vec::new();
    for i in 0..graph.get_node_amount() {
        out.push(graph.get_node(i).unwrap().element);
    }
    out
}

/// Builds a grid from rows of characters: '#' is a wall, '.' is open.
fn grid(rows: &[&str]) -> (u32, u32, Vec<bool>) {
    let height = rows.len() as u32;
    let width = rows[0].len() as u32;
    let mut cells = Vec::new();
    for row in rows {
        for ch in row.chars() {
            cells.push(ch == '#');
        }
    }
    (width, height, cells)
}

/// A straight corridor of three open tiles in a single row: the two ends are
/// boundary exits, the middle tile is compressed away, and one edge joins the
/// ends. The search from the left end finds the right end.
#[test]
fn straight_corridor_row() {
    let (w, h, cells) = grid(&["..."]);
    let maze = Maze::new(w, h, cells, 0, 0).unwrap();
    assert_eq!(
        nodes_of(&maze),
        vec![((0, 0), true), ((2, 0), true)]
    );
    let graph = maze.get_graph();
    // A single two-way edge: both directions present, weight zero.
    assert_eq!(graph.get_edge_amount(), 2);
    assert_eq!(graph.get_edge(0, 1).unwrap(), Some(0));
    assert_eq!(graph.get_edge(1, 0).unwrap(), Some(0));
    assert_eq!(Maze::solve_maze(&maze), Some((2, 0)));
}

/// The same corridor standing upright behaves symmetrically.
#[test]
fn straight_corridor_column() {
    let (w, h, cells) = grid(&[".", ".", "."]);
    let maze = Maze::new(w, h, cells, 0, 0).unwrap();
    assert_eq!(
        nodes_of(&maze),
        vec![((0, 0), true), ((0, 2), true)]
    );
    assert_eq!(Maze::solve_maze(&maze), Some((0, 2)));
}

/// An interior tile whose pattern is straight-through (open above and below,
/// walls left and right) creates no node; the dead ends around it do.
#[test]
fn interior_straight_tile_compressed() {
    let (w, h, cells) = grid(&[
        "#####",
        "#...#",
        "#####",
    ]);
    let maze = Maze::new(w, h, cells, 1, 1).unwrap();
    let nodes = nodes_of(&maze);
    assert_eq!(nodes, vec![((1, 1), false), ((3, 1), false)]);
    assert!(nodes.iter().all(|n| n.0 != (2, 1)));
    let graph = maze.get_graph();
    assert_eq!(graph.get_edge(0, 1).unwrap(), Some(0));
    assert_eq!(graph.get_edge(1, 0).unwrap(), Some(0));
    // No exit-flagged node anywhere: the search finds nothing.
    assert_eq!(Maze::solve_maze(&maze), None);
}

/// Every open tile on the image edge (here: a single gap in the border)
/// produces exactly one exit-flagged node.
#[test]
fn boundary_open_tile_is_exit_node() {
    let (w, h, cells) = grid(&[
        "#.#",
        "###",
        "###",
    ]);
    let maze = Maze::new(w, h, cells, 1, 0).unwrap();
    assert_eq!(nodes_of(&maze), vec![((1, 0), true)]);
    // The only exit-flagged node is the start itself, which is skipped once:
    // no second exit exists.
    assert_eq!(Maze::solve_maze(&maze), None);
}

/// A fully enclosed single open tile: no boundary adjacency, all four sides
/// walled, so no node at all, and no exit is found.
#[test]
fn enclosed_single_tile() {
    let (w, h, cells) = grid(&[
        "###",
        "#.#",
        "###",
    ]);
    let maze = Maze::new(w, h, cells, 1, 1).unwrap();
    assert_eq!(maze.get_graph().get_node_amount(), 0);
    assert_eq!(maze.get_graph().get_edge_amount(), 0);
    assert_eq!(Maze::solve_maze(&maze), None);
}

/// A fully open 3-by-3 image: a boundary node on every perimeter tile, a
/// cross junction in the middle wired to the four edge-middle nodes, and the
/// search from the top-middle entry crosses the junction to another boundary
/// coordinate in two hops.
#[test]
fn open_square_cross_junction() {
    let (w, h, cells) = grid(&[
        "...",
        "...",
        "...",
    ]);
    let maze = Maze::new(w, h, cells, 1, 0).unwrap();
    let nodes = nodes_of(&maze);
    assert_eq!(nodes.len(), 9);
    // Raster order gives the ids; every perimeter tile is an exit node.
    let expected_coords = [
        (0, 0), (1, 0), (2, 0),
        (0, 1), (1, 1), (2, 1),
        (0, 2), (1, 2), (2, 2),
    ];
    for (i, &coord) in expected_coords.iter().enumerate() {
        assert_eq!(nodes[i].0, coord);
        assert_eq!(nodes[i].1, coord != (1, 1));
    }
    // The cross junction connects exactly the four edge-middle nodes.
    let graph = maze.get_graph();
    let center = 4usize;
    assert_eq!(graph.get_neighbors(center).unwrap(), vec![1, 3, 5, 7]);
    // The entry node's only neighbor is the junction.
    assert_eq!(graph.get_neighbors(1).unwrap(), vec![center]);
    // No edge joins two corners across the boundary junction between them,
    // and no edge joins the entry to a corner beside it.
    for &(u, v) in &[(0, 2), (0, 6), (2, 8), (6, 8), (0, 1), (1, 2)] {
        assert_eq!(graph.get_edge(u, v).unwrap(), None);
        assert_eq!(graph.get_edge(v, u).unwrap(), None);
    }
    // The column corridors along the sides do connect their adjacent nodes.
    assert_eq!(graph.get_edge(3, 6).unwrap(), Some(0));
    assert_eq!(graph.get_edge(5, 8).unwrap(), Some(0));
    let exit = Maze::solve_maze(&maze).unwrap();
    assert!(exit == (0, 1) || exit == (2, 1) || exit == (1, 2));
    assert_ne!(exit, (1, 0));
}

/// An entry coordinate outside the image is rejected at construction.
#[test]
fn entry_out_of_bounds() {
    let (w, h, cells) = grid(&["..."]);
    assert_eq!(
        Maze::new(w, h, cells, 3, 0).err(),
        Some(MazeError::OutOfBounds)
    );
    let (w, h, cells) = grid(&["..."]);
    assert_eq!(
        Maze::new(w, h, cells, 0, 1).err(),
        Some(MazeError::OutOfBounds)
    );
}

/// Tile lookup returns the wall bit in bounds and fails beyond the image.
#[test]
fn tile_lookup() {
    let (w, h, cells) = grid(&[
        "#.",
        ".#",
    ]);
    let maze = Maze::new(w, h, cells, 1, 0).unwrap();
    assert_eq!(maze.get_tile(0, 0), Ok(true));
    assert_eq!(maze.get_tile(1, 0), Ok(false));
    assert_eq!(maze.get_tile(0, 1), Ok(false));
    assert_eq!(maze.get_tile(1, 1), Ok(true));
    assert_eq!(maze.get_tile(2, 0), Err(MazeError::OutOfBounds));
    assert_eq!(maze.get_tile(0, 2), Err(MazeError::OutOfBounds));
}

/// Overwriting a tile is visible through the tile lookup.
#[test]
fn tile_overwrite() {
    let (w, h, cells) = grid(&["..."]);
    let mut maze = Maze::new(w, h, cells, 0, 0).unwrap();
    maze.set_tile(1, 0, true);
    assert_eq!(maze.get_tile(1, 0), Ok(true));
    assert_eq!(maze.get_tile(0, 0), Ok(false));
}

/// Neighbor lookup reports absent sides at the image edge and wall bits
/// inside, and fails for a coordinate outside the image.
#[test]
fn neighbor_lookup() {
    let (w, h, cells) = grid(&[
        "#.#",
        "...",
        "#.#",
    ]);
    let maze = Maze::new(w, h, cells, 1, 0).unwrap();
    let sides = maze.get_neighbors(1, 1).unwrap();
    assert_eq!(sides.top, Some(false));
    assert_eq!(sides.right, Some(false));
    assert_eq!(sides.bottom, Some(false));
    assert_eq!(sides.left, Some(false));
    let corner = maze.get_neighbors(0, 0).unwrap();
    assert_eq!(corner.top, None);
    assert_eq!(corner.left, None);
    assert_eq!(corner.right, Some(false));
    assert_eq!(corner.bottom, Some(false));
    assert!(maze.get_neighbors(3, 0).is_err());
}

/// The search from an id that is no node finds nothing, and a lone node
/// graph cannot yield a second exit.
#[test]
fn bfs_degenerate_starts() {
    let (w, h, cells) = grid(&[
        "###",
        "###",
        "###",
    ]);
    let maze = Maze::new(w, h, cells, 0, 0).unwrap();
    assert_eq!(maze.get_graph().get_node_amount(), 0);
    assert_eq!(Maze::bfs(maze.get_graph(), 0), None);
    assert_eq!(Maze::solve_maze(&maze), None);
}

/// A longer maze: one corridor from the left edge to the right edge with a
/// turn, plus a dead-end branch. The search follows the corridor.
#[test]
fn corridor_with_turn() {
    let (w, h, cells) = grid(&[
        "#.###",
        "#...#",
        "###.#",
        "###.#",
        "###.#",
    ]);
    // Open tiles: (1,0) top entry; (1,1),(2,1),(3,1); column (3,2..4).
    let maze = Maze::new(w, h, cells, 1, 0).unwrap();
    let nodes = nodes_of(&maze);
    // (1,0): boundary exit; (1,1): corner; (3,1): corner; (3,4): bottom exit.
    // (2,1) and (3,2), (3,3) are straight corridors, compressed.
    assert_eq!(
        nodes,
        vec![((1, 0), true), ((1, 1), false), ((3, 1), false), ((3, 4), true)]
    );
    assert_eq!(Maze::solve_maze(&maze), Some((3, 4)));
}

/// An open top row with a junction in its middle: the right-edge node must
/// not be wired across that junction to the left corner — the row mark stops
/// at a junction and at every wall, so the only edge is the one corridor
/// that actually leaves the middle junction downward.
#[test]
fn no_edge_across_an_intervening_junction() {
    let (w, h, cells) = grid(&[
        "...",
        "#.#",
    ]);
    let maze = Maze::new(w, h, cells, 1, 0).unwrap();
    assert_eq!(
        nodes_of(&maze),
        vec![((0, 0), true), ((1, 0), true), ((2, 0), true), ((1, 1), true)]
    );
    let graph = maze.get_graph();
    // Exactly one two-way edge: middle of the top row down to the stub.
    assert_eq!(graph.get_edge_amount(), 2);
    assert_eq!(graph.get_edge(1, 3).unwrap(), Some(0));
    assert_eq!(graph.get_edge(3, 1).unwrap(), Some(0));
    assert_eq!(graph.get_edge(0, 2).unwrap(), None);
    assert_eq!(graph.get_edge(2, 0).unwrap(), None);
    assert_eq!(graph.get_edge(0, 1).unwrap(), None);
    assert_eq!(graph.get_edge(1, 2).unwrap(), None);
    assert_eq!(Maze::solve_maze(&maze), Some((1, 1)));
}

/// A wall interrupting a row clears the row mark: the right-edge node wires
/// only to its own open stretch, never across the wall to the left one.
#[test]
fn wall_clears_the_row_mark() {
    let (w, h, cells) = grid(&[
        "..#..",
    ]);
    let maze = Maze::new(w, h, cells, 3, 0).unwrap();
    // Four boundary nodes; only the right edge has an absent side that
    // wires, and it reaches the start of its own stretch.
    assert_eq!(
        nodes_of(&maze),
        vec![((0, 0), true), ((1, 0), true), ((3, 0), true), ((4, 0), true)]
    );
    let graph = maze.get_graph();
    assert_eq!(graph.get_edge_amount(), 2);
    assert_eq!(graph.get_edge(2, 3).unwrap(), Some(0));
    assert_eq!(graph.get_edge(3, 2).unwrap(), Some(0));
    assert_eq!(graph.get_edge(1, 2).unwrap(), None);
    assert_eq!(graph.get_edge(0, 2).unwrap(), None);
    assert_eq!(graph.get_edge(0, 3).unwrap(), None);
    assert_eq!(graph.get_edge(1, 3).unwrap(), None);
    // From (3,0) the search crosses its stretch to the right edge.
    assert_eq!(Maze::solve_maze(&maze), Some((4, 0)));
}
