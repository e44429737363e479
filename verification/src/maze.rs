//! The maze grid and the raster-scan junction extractor.
//!
//! A maze is a boolean grid (`true` = wall, `false` = open) together with the
//! junction graph that one raster scan over the open tiles produces. The scan
//! classifies each open tile by the open/wall pattern of its four neighbors,
//! compresses straight corridors, turns every other junction shape and every
//! edge-touching tile into a graph node, and wires nodes along corridors
//! through a frontier of the most recent node above each column (`upper`) and
//! to the left in the current row (`left`).

use crate::graph::lemma_neighbors_upto_bounds;
use crate::graph::Graph;
use std::collections::VecDeque;
use vstd::prelude::*;

verus! {

/// Everything that can go wrong while building or searching a maze.
#[derive(Clone, Copy, Debug, PartialEq, Eq, Structural)]
pub enum MazeError {
    /// The decoded pixels do not form a usable grid.
    InvalidImage,
    /// A coordinate or an index lies outside its valid range.
    OutOfBounds,
    /// The scan read a frontier slot that held no node yet.
    MalformedMaze,
    /// A search ended without finding an exit.
    NoExitFound,
}

/// The four neighbor states of a tile, in image order: a side is `None` when
/// the neighbor coordinate would leave the image, and otherwise holds whether
/// the neighbor tile is a wall.
#[derive(Clone, Copy, Debug, PartialEq, Eq, Structural)]
pub struct Sides {
    /// The tile one row up.
    pub top: Option<bool>,
    /// The tile one column right.
    pub right: Option<bool>,
    /// The tile one row down.
    pub bottom: Option<bool>,
    /// The tile one column left.
    pub left: Option<bool>,
}

/// The mathematical view of a maze grid: `cells[y * width + x]` is `true`
/// exactly when the tile at `(x, y)` is a wall.
pub ghost struct GridModel {
    /// Number of columns.
    pub width: int,
    /// Number of rows.
    pub height: int,
    /// Row-major wall bits.
    pub cells: Seq<bool>,
}

/// The grid stores exactly one wall bit per tile.
pub open spec fn grid_wf(g: GridModel) -> bool {
    &&& g.width >= 0
    &&& g.height >= 0
    &&& g.cells.len() == g.width * g.height
}

/// The grid a width, a height and a cell vector describe.
pub open spec fn grid_of(width: u32, height: u32, cells: Seq<bool>) -> GridModel {
    GridModel { width: width as int, height: height as int, cells }
}

/// Whether `(x, y)` is inside the image and an open (non-wall) tile.
pub open spec fn tile_open(g: GridModel, x: int, y: int) -> bool {
    &&& 0 <= x < g.width
    &&& 0 <= y < g.height
    &&& !g.cells[y * g.width + x]
}

/// The neighbor state at `(x, y)`: absent outside the image, else the wall bit.
pub open spec fn side_state(g: GridModel, x: int, y: int) -> Option<bool> {
    if 0 <= x < g.width && 0 <= y < g.height {
        Some(g.cells[y * g.width + x])
    } else {
        None
    }
}

/// A corridor running straight down: both vertical sides open, both
/// horizontal sides walled or absent.
pub open spec fn vertical_straight(g: GridModel, x: int, y: int) -> bool {
    &&& tile_open(g, x, y - 1)
    &&& tile_open(g, x, y + 1)
    &&& !tile_open(g, x - 1, y)
    &&& !tile_open(g, x + 1, y)
}

/// A corridor running straight right: both horizontal sides open, both
/// vertical sides walled or absent.
pub open spec fn horizontal_straight(g: GridModel, x: int, y: int) -> bool {
    &&& tile_open(g, x - 1, y)
    &&& tile_open(g, x + 1, y)
    &&& !tile_open(g, x, y - 1)
    &&& !tile_open(g, x, y + 1)
}

/// The two straight-through patterns, which are compressed: no node.
pub open spec fn straight_pattern(g: GridModel, x: int, y: int) -> bool {
    vertical_straight(g, x, y) || horizontal_straight(g, x, y)
}

/// Whether the tile touches the image edge, i.e. some neighbor is absent.
pub open spec fn touches_edge(g: GridModel, x: int, y: int) -> bool {
    x == 0 || y == 0 || x + 1 >= g.width || y + 1 >= g.height
}

/// Whether all four neighbors are walled or absent: an isolated open tile.
pub open spec fn all_sides_closed(g: GridModel, x: int, y: int) -> bool {
    &&& !tile_open(g, x, y - 1)
    &&& !tile_open(g, x + 1, y)
    &&& !tile_open(g, x, y + 1)
    &&& !tile_open(g, x - 1, y)
}

/// Whether the scan creates a node at `(x, y)`: the tile is open, its pattern
/// is not straight-through, and it either touches the image edge or has at
/// least one open side.
pub open spec fn makes_node(g: GridModel, x: int, y: int) -> bool {
    &&& tile_open(g, x, y)
    &&& !straight_pattern(g, x, y)
    &&& (touches_edge(g, x, y) || !all_sides_closed(g, x, y))
}

/// The scan state: the nodes appended so far (coordinate and exit flag, in
/// appendix order), the wired links (both directions of every two-way edge),
/// the frontier, and whether a frontier read has failed.
pub ghost struct ScanModel {
    /// Appended nodes: coordinate and exit flag, id = position.
    pub nodes: Seq<((u32, u32), bool)>,
    /// Present directed links with their weights.
    pub links: Map<(int, int), isize>,
    /// Per column, the most recent node still open downward.
    pub upper: Seq<Option<int>>,
    /// The most recent node still open rightward in the current row.
    pub left_mark: Option<int>,
    /// Whether a required frontier slot was empty.
    pub failed: bool,
}

/// Both directions between `a` and `b` set to weight zero.
pub open spec fn link_both(links: Map<(int, int), isize>, a: int, b: int) -> Map<
    (int, int),
    isize,
> {
    links.insert((a, b), 0isize).insert((b, a), 0isize)
}

/// The scan state before any tile has been visited.
pub open spec fn scan_init(g: GridModel) -> ScanModel {
    ScanModel {
        nodes: Seq::empty(),
        links: Map::empty(),
        upper: Seq::new(g.width as nat, |i: int| None),
        left_mark: None,
        failed: false,
    }
}

/// One scan step: what visiting the tile at `(x, y)` does to the state.
pub open spec fn scan_step(g: GridModel, st: ScanModel, x: int, y: int) -> ScanModel {
    if st.failed {
        st
    } else if !tile_open(g, x, y) {
        // A wall tile interrupts both corridors through it: the column above
        // it and the row to its left no longer continue, so their marks are
        // cleared and can never be wired across the wall.
        if 0 <= x < g.width && 0 <= y < g.height {
            ScanModel {
                nodes: st.nodes,
                links: st.links,
                upper: st.upper.update(x, None),
                left_mark: None,
                failed: false,
            }
        } else {
            st
        }
    } else if straight_pattern(g, x, y) {
        st
    } else if touches_edge(g, x, y) {
        // A boundary tile: always a node, flagged as exit. Wiring comes only
        // from the absent sides: an absent bottom or right side closes a
        // corridor that came from above or from the left. The frontier is
        // maintained like at an interior junction, so that a mark always
        // names the node a corridor genuinely runs from: the column mark
        // follows the interior rule, and the row mark holds this node when
        // the left side is closed and is cleared when it is open, since a
        // boundary junction does not wire onward along its row.
        let t = tile_open(g, x, y - 1);
        let b = tile_open(g, x, y + 1);
        let l = tile_open(g, x - 1, y);
        let id = st.nodes.len() as int;
        let nodes2 = st.nodes.push(((x as u32, y as u32), true));
        let links1 = if y + 1 >= g.height && st.upper[x].is_some() {
            link_both(st.links, st.upper[x].unwrap(), id)
        } else {
            st.links
        };
        let links2 = if x + 1 >= g.width && st.left_mark.is_some() {
            link_both(links1, st.left_mark.unwrap(), id)
        } else {
            links1
        };
        let upper2 = st.upper.update(
            x,
            if t {
                if b {
                    Some(id)
                } else {
                    None
                }
            } else {
                Some(id)
            },
        );
        let left2 = if l {
            None
        } else {
            Some(id)
        };
        ScanModel { nodes: nodes2, links: links2, upper: upper2, left_mark: left2, failed: false }
    } else if all_sides_closed(g, x, y) {
        // An isolated open tile inside the image: no node.
        st
    } else {
        // An interior junction: a node, wired and recorded per side.
        let t = tile_open(g, x, y - 1);
        let r = tile_open(g, x + 1, y);
        let b = tile_open(g, x, y + 1);
        let l = tile_open(g, x - 1, y);
        if (t && st.upper[x] is None) || (l && st.left_mark is None) {
            ScanModel {
                nodes: st.nodes,
                links: st.links,
                upper: st.upper,
                left_mark: st.left_mark,
                failed: true,
            }
        } else {
            let id = st.nodes.len() as int;
            let nodes2 = st.nodes.push(((x as u32, y as u32), false));
            let links1 = if t {
                link_both(st.links, st.upper[x].unwrap(), id)
            } else {
                st.links
            };
            let links2 = if l {
                link_both(links1, st.left_mark.unwrap(), id)
            } else {
                links1
            };
            let upper2 = st.upper.update(
                x,
                if t {
                    if b {
                        Some(id)
                    } else {
                        None
                    }
                } else {
                    Some(id)
                },
            );
            let left2 = if l {
                if r {
                    Some(id)
                } else {
                    None
                }
            } else {
                Some(id)
            };
            ScanModel {
                nodes: nodes2,
                links: links2,
                upper: upper2,
                left_mark: left2,
                failed: false,
            }
        }
    }
}

/// The scan state after every row below `y` in full and the first `x` tiles
/// of row `y` have been visited, in raster order.
pub open spec fn scan_upto(g: GridModel, y: int, x: int) -> ScanModel
    decreases y, x,
{
    if y <= 0 && x <= 0 {
        scan_init(g)
    } else if x <= 0 {
        scan_upto(g, y - 1, g.width)
    } else {
        scan_step(g, scan_upto(g, y, x - 1), x - 1, y)
    }
}

/// The finished scan of the whole grid.
pub open spec fn scan_model(g: GridModel) -> ScanModel {
    scan_upto(g, g.height, 0)
}

/// Whether an executable frontier slot mirrors a model slot, with its node id
/// below the current node count.
pub open spec fn frontier_match(e: Option<usize>, m: Option<int>, n: int) -> bool {
    match e {
        Some(u) => m == Some(u as int) && (u as int) < n,
        None => m is None,
    }
}

/// Every link endpoint is an existing node id.
pub open spec fn links_bounded(st: ScanModel) -> bool {
    forall|a: int, b: int|
        #[trigger] st.links.contains_key((a, b)) ==> 0 <= a < st.nodes.len() && 0 <= b
            < st.nodes.len()
}

/// Whether a graph holds exactly the nodes and links of a scan state: same
/// node payloads in the same order, no visited marker set, and a matrix cell
/// present exactly for the wired links, with their weights.
pub open spec fn graph_matches(g: Graph<((u32, u32), bool)>, st: ScanModel) -> bool {
    &&& g.node_count() == st.nodes.len()
    &&& forall|i: int|
        0 <= i < st.nodes.len() ==> #[trigger] g.node_at(i).element == st.nodes[i]
            && !g.node_at(i).visited
    &&& forall|u: int, v: int|
        0 <= u < g.node_count() && 0 <= v < g.node_count() ==> #[trigger] g.edge_at(u, v) == (
        if st.links.contains_key((u, v)) {
            Some(st.links[(u, v)])
        } else {
            None
        })
}

/// A grid cell index lies inside the cell vector.
proof fn lemma_grid_index(w: int, h: int, x: int, y: int)
    requires
        0 <= x < w,
        0 <= y < h,
    ensures
        0 <= y * w + x < w * h,
{
    assert(0 <= y * w + x < w * h) by (nonlinear_arith)
        requires
            0 <= x < w,
            0 <= y < h,
    ;
}

/// Squaring keeps order on the nonnegative integers.
proof fn lemma_square_le(a: int, b: int)
    requires
        0 <= a <= b,
    ensures
        a * a <= b * b,
{
    assert(a * a <= b * b) by (nonlinear_arith)
        requires
            0 <= a <= b,
    ;
}

/// Once a scan has failed, every later state of the same scan is failed.
proof fn lemma_failed_sticky(g: GridModel, y1: int, x1: int, y2: int, x2: int)
    requires
        0 <= y1,
        0 <= x1 <= g.width,
        0 <= x2,
        y1 < y2 || (y1 == y2 && x1 <= x2),
        scan_upto(g, y1, x1).failed,
    ensures
        scan_upto(g, y2, x2).failed,
    decreases y2, x2,
{
    if y1 == y2 && x1 == x2 {
    } else if x2 > 0 {
        lemma_failed_sticky(g, y1, x1, y2, x2 - 1);
    } else {
        // x2 == 0 and the state is the end of the previous row.
        assert(y2 > y1);
        if y2 - 1 == y1 && x1 == g.width {
            assert(scan_upto(g, y2, 0) == scan_upto(g, y2 - 1, g.width));
        } else {
            lemma_failed_sticky(g, y1, x1, y2 - 1, if g.width >= 0 { g.width } else { 0 });
            assert(scan_upto(g, y2, 0) == scan_upto(g, y2 - 1, g.width));
            if g.width < 0 {
                assert(scan_upto(g, y2 - 1, g.width) == scan_upto(g, y2 - 1, 0));
            }
        }
    }
}

/// A maze: the wall grid, the junction graph its scan produced, and the entry
/// coordinate the search starts from.
pub struct Maze {
    size: (u32, u32),
    maze: Vec<bool>,
    graph: Graph<((u32, u32), bool)>,
    entry: (u32, u32),
}

/// Wires both directions between two existing nodes with weight zero.
fn wire_nodes(graph: &mut Graph<((u32, u32), bool)>, a: usize, b: usize)
    requires
        old(graph).wf(),
        a < old(graph).node_count(),
        b < old(graph).node_count(),
    ensures
        final(graph).wf(),
        final(graph).node_count() == old(graph).node_count(),
        forall|i: int|
            0 <= i < old(graph).node_count() ==> final(graph).node_at(i) == old(graph).node_at(i),
        final(graph).edge_at(a as int, b as int) == Some(0isize),
        final(graph).edge_at(b as int, a as int) == Some(0isize),
        forall|u: int, v: int|
            0 <= u < old(graph).node_count() && 0 <= v < old(graph).node_count() && !(u == a as int
                && v == b as int) && !(u == b as int && v == a as int) ==> final(graph).edge_at(
                u,
                v,
            ) == old(graph).edge_at(u, v),
{
    let _ = graph.set_bi_edge(a, b, 0);
}

impl Maze {
    /// The mathematical grid this maze holds.
    pub closed spec fn grid(&self) -> GridModel {
        GridModel { width: self.size.0 as int, height: self.size.1 as int, cells: self.maze@ }
    }

    /// The junction graph, as a specification value.
    pub closed spec fn graph_spec(&self) -> Graph<((u32, u32), bool)> {
        self.graph
    }

    /// The entry coordinate the search starts from.
    pub closed spec fn entry_spec(&self) -> (u32, u32) {
        self.entry
    }

    /// A well-formed maze: the grid shape is consistent, its scan succeeded,
    /// and the graph is exactly the scan's outcome.
    pub closed spec fn wf(&self) -> bool {
        &&& grid_wf(self.grid())
        &&& self.graph.wf()
        &&& !scan_model(self.grid()).failed
        &&& links_bounded(scan_model(self.grid()))
        &&& graph_matches(self.graph, scan_model(self.grid()))
        &&& (self.entry.0 as int) < self.grid().width
        &&& (self.entry.1 as int) < self.grid().height
    }

    /// The junction graph the scan produced.
    pub fn get_graph(&self) -> (g: &Graph<((u32, u32), bool)>)
        ensures
            *g == self.graph_spec(),
    {
        &self.graph
    }

    /// The flat cell index of the tile at `(x, y)`.
    fn cell_index(&self, x: u32, y: u32) -> (idx: usize)
        requires
            grid_wf(self.grid()),
            (x as int) < self.grid().width,
            (y as int) < self.grid().height,
        ensures
            idx == (y as int) * self.grid().width + (x as int),
            idx < self.maze@.len(),
    {
        let total = self.maze.len();
        proof {
            lemma_grid_index(self.grid().width, self.grid().height, x as int, y as int);
        }
        (y as usize) * (self.size.0 as usize) + (x as usize)
    }

    /// The wall bit of the tile at `(x, y)`, or `OutOfBounds` when the
    /// coordinate leaves the image.
    pub fn get_tile(&self, x: u32, y: u32) -> (r: Result<bool, MazeError>)
        requires
            grid_wf(self.grid()),
        ensures
            (x as int) < self.grid().width && (y as int) < self.grid().height ==> r == Ok::<
                bool,
                MazeError,
            >(self.grid().cells[(y as int) * self.grid().width + (x as int)]),
            !((x as int) < self.grid().width && (y as int) < self.grid().height) ==> r == Err::<
                bool,
                MazeError,
            >(MazeError::OutOfBounds),
    {
        if x < self.size.0 && y < self.size.1 {
            let idx = self.cell_index(x, y);
            Ok(self.maze[idx])
        } else {
            Err(MazeError::OutOfBounds)
        }
    }

    /// Overwrites the wall bit of the tile at `(x, y)`. The graph is not
    /// re-scanned: after this the maze no longer satisfies `wf`, so it is a
    /// grid editor, not a maze editor.
    pub fn set_tile(&mut self, x: u32, y: u32, value: bool)
        requires
            grid_wf(old(self).grid()),
            (x as int) < old(self).grid().width,
            (y as int) < old(self).grid().height,
        ensures
            final(self).grid().width == old(self).grid().width,
            final(self).grid().height == old(self).grid().height,
            final(self).entry_spec() == old(self).entry_spec(),
            final(self).graph_spec() == old(self).graph_spec(),
            final(self).grid().cells == old(self).grid().cells.update(
                (y as int) * old(self).grid().width + (x as int),
                value,
            ),
    {
        let idx = self.cell_index(x, y);
        self.maze[idx] = value;
    }

    /// The four neighbor states of the tile at `(x, y)`, each absent when the
    /// neighbor coordinate leaves the image, or `OutOfBounds` when `(x, y)`
    /// itself does.
    pub fn get_neighbors(&self, x: u32, y: u32) -> (r: Result<Sides, MazeError>)
        requires
            grid_wf(self.grid()),
        ensures
            (x as int) < self.grid().width && (y as int) < self.grid().height ==> r == Ok::<
                Sides,
                MazeError,
            >(
                Sides {
                    top: side_state(self.grid(), x as int, y as int - 1),
                    right: side_state(self.grid(), x as int + 1, y as int),
                    bottom: side_state(self.grid(), x as int, y as int + 1),
                    left: side_state(self.grid(), x as int - 1, y as int),
                },
            ),
            !((x as int) < self.grid().width && (y as int) < self.grid().height) ==> r == Err::<
                Sides,
                MazeError,
            >(MazeError::OutOfBounds),
    {
        let w = self.size.0;
        let h = self.size.1;
        if x < w && y < h {
            let top = if y > 0 {
                let idx = self.cell_index(x, y - 1);
                Some(self.maze[idx])
            } else {
                None
            };
            let right = if x + 1 < w {
                let idx = self.cell_index(x + 1, y);
                Some(self.maze[idx])
            } else {
                None
            };
            let bottom = if y + 1 < h {
                let idx = self.cell_index(x, y + 1);
                Some(self.maze[idx])
            } else {
                None
            };
            let left = if x > 0 {
                let idx = self.cell_index(x - 1, y);
                Some(self.maze[idx])
            } else {
                None
            };
            Ok(Sides { top, right, bottom, left })
        } else {
            Err(MazeError::OutOfBounds)
        }
    }

    /// Builds a maze from a wall grid and an entry coordinate, and runs the
    /// scan. Fails with `OutOfBounds` exactly when the entry coordinate
    /// leaves the image; the scan itself never fails on a well-formed grid.
    pub fn new(width: u32, height: u32, cells: Vec<bool>, entry_x: u32, entry_y: u32) -> (r:
        Result<Maze, MazeError>)
        requires
            cells@.len() == (width as int) * (height as int),
            ((width as int) * (height as int)) * ((width as int) * (height as int)) <= usize::MAX,
        ensures
            r.is_ok() <==> (entry_x < width && entry_y < height),
            match r {
                Ok(m) => {
                    &&& !scan_model(grid_of(width, height, cells@)).failed
                    &&& m.wf()
                    &&& m.grid() == grid_of(width, height, cells@)
                    &&& m.entry_spec() == (entry_x, entry_y)
                    &&& graph_matches(m.graph_spec(), scan_model(grid_of(width, height, cells@)))
                },
                Err(e) => e == MazeError::OutOfBounds,
            },
    {
        if entry_x < width && entry_y < height {
            let mut maze = Maze {
                size: (width, height),
                maze: cells,
                graph: Graph::new(),
                entry: (entry_x, entry_y),
            };
            match maze.scan() {
                Ok(()) => Ok(maze),
                Err(e) => {
                    // The scan of a well-formed grid cannot fail.
                    proof {
                        lemma_scan_never_fails(grid_of(width, height, cells@));
                        assert(false);
                    }
                    Err(e)
                },
            }
        } else {
            Err(MazeError::OutOfBounds)
        }
    }

    /// One raster pass over the open tiles, appending junction nodes to the
    /// graph and wiring them through the frontier, exactly as the scan model
    /// describes. Fails with `MalformedMaze` exactly when the model does.
    fn scan(&mut self) -> (r: Result<(), MazeError>)
        requires
            grid_wf(old(self).grid()),
            old(self).graph.wf(),
            old(self).graph.node_count() == 0,
            (old(self).grid().width * old(self).grid().height) * (old(self).grid().width * old(
                self,
            ).grid().height) <= usize::MAX,
        ensures
            final(self).size == old(self).size,
            final(self).maze@ == old(self).maze@,
            final(self).entry == old(self).entry,
            match r {
                Ok(()) => {
                    &&& !scan_model(old(self).grid()).failed
                    &&& final(self).graph.wf()
                    &&& links_bounded(scan_model(old(self).grid()))
                    &&& graph_matches(final(self).graph, scan_model(old(self).grid()))
                },
                Err(e) => e == MazeError::MalformedMaze && scan_model(old(self).grid()).failed,
            },
    {
        let ghost g = self.grid();
        let w = self.size.0;
        let h = self.size.1;
        let wu = w as usize;
        let mut upper: Vec<Option<usize>> = Vec::new();
        while upper.len() < wu
            invariant
                upper@.len() <= wu,
                forall|i: int| 0 <= i < upper@.len() ==> upper@[i] is None,
            decreases wu - upper@.len(),
        {
            upper.push(None);
        }
        let mut left_mark: Option<usize> = None;
        let mut y: u32 = 0;
        while y < h
            invariant
                y <= h,
                self.size == old(self).size,
                self.maze@ == old(self).maze@,
                self.entry == old(self).entry,
                self.graph.wf(),
                upper@.len() == w as int,
                !scan_upto(g, y as int, 0).failed,
                links_bounded(scan_upto(g, y as int, 0)),
                graph_matches(self.graph, scan_upto(g, y as int, 0)),
                scan_upto(g, y as int, 0).upper.len() == w as int,
                forall|i: int|
                    0 <= i < w as int ==> frontier_match(
                        upper@[i],
                        scan_upto(g, y as int, 0).upper[i],
                        self.graph.node_count(),
                    ),
                frontier_match(left_mark, scan_upto(g, y as int, 0).left_mark, self.graph.node_count()),
                self.graph.node_count() <= (y as int) * (w as int),
            decreases h - y,
        {
            let mut x: u32 = 0;
            while x < w
                invariant
                    x <= w,
                    y < h,
                    self.size == old(self).size,
                    self.maze@ == old(self).maze@,
                    self.entry == old(self).entry,
                    self.graph.wf(),
                    upper@.len() == w as int,
                    !scan_upto(g, y as int, x as int).failed,
                    links_bounded(scan_upto(g, y as int, x as int)),
                    graph_matches(self.graph, scan_upto(g, y as int, x as int)),
                    scan_upto(g, y as int, x as int).upper.len() == w as int,
                    forall|i: int|
                        0 <= i < w as int ==> frontier_match(
                            upper@[i],
                            scan_upto(g, y as int, x as int).upper[i],
                            self.graph.node_count(),
                        ),
                    frontier_match(
                        left_mark,
                        scan_upto(g, y as int, x as int).left_mark,
                        self.graph.node_count(),
                    ),
                    self.graph.node_count() <= (y as int) * (w as int) + (x as int),
                decreases w - x,
            {
                let ghost st = scan_upto(g, y as int, x as int);
                let ghost st2 = scan_upto(g, y as int, x as int + 1);
                proof {
                    assert(st2 == scan_step(g, st, x as int, y as int));
                    lemma_grid_index(w as int, h as int, x as int, y as int);
                    assert((y as int) * (w as int) + (x as int) < (w as int) * (h as int))
                        by (nonlinear_arith)
                        requires
                            0 <= (x as int) < (w as int),
                            0 <= (y as int) < (h as int),
                    ;
                }
                let cidx = self.cell_index(x, y);
                let wall = self.maze[cidx];
                if !wall {
                    proof {
                        assert(tile_open(g, x as int, y as int));
                    }
                    let top: Option<bool> = if y > 0 {
                        let idx = self.cell_index(x, y - 1);
                        Some(self.maze[idx])
                    } else {
                        None
                    };
                    let right: Option<bool> = if x + 1 < w {
                        let idx = self.cell_index(x + 1, y);
                        Some(self.maze[idx])
                    } else {
                        None
                    };
                    let bottom: Option<bool> = if y + 1 < h {
                        let idx = self.cell_index(x, y + 1);
                        Some(self.maze[idx])
                    } else {
                        None
                    };
                    let left: Option<bool> = if x > 0 {
                        let idx = self.cell_index(x - 1, y);
                        Some(self.maze[idx])
                    } else {
                        None
                    };
                    let t_open = match top {
                        Some(b) => !b,
                        None => false,
                    };
                    let r_open = match right {
                        Some(b) => !b,
                        None => false,
                    };
                    let b_open = match bottom {
                        Some(b) => !b,
                        None => false,
                    };
                    let l_open = match left {
                        Some(b) => !b,
                        None => false,
                    };
                    let t_absent = top.is_none();
                    let r_absent = right.is_none();
                    let b_absent = bottom.is_none();
                    let l_absent = left.is_none();
                    proof {
                        assert(t_open == tile_open(g, x as int, y as int - 1));
                        assert(r_open == tile_open(g, x as int + 1, y as int));
                        assert(b_open == tile_open(g, x as int, y as int + 1));
                        assert(l_open == tile_open(g, x as int - 1, y as int));
                        assert(t_absent == (y as int == 0));
                        assert(r_absent == (x as int + 1 >= w as int));
                        assert(b_absent == (y as int + 1 >= h as int));
                        assert(l_absent == (x as int == 0));
                        assert((t_absent || r_absent || b_absent || l_absent) == touches_edge(
                            g,
                            x as int,
                            y as int,
                        ));
                    }
                    let vertical = t_open && b_open && !l_open && !r_open;
                    let horizontal = l_open && r_open && !t_open && !b_open;
                    if vertical || horizontal {
                        proof {
                            assert(straight_pattern(g, x as int, y as int));
                            assert(st2 == st);
                        }
                    } else if t_absent || r_absent || b_absent || l_absent {
                        // Boundary tile: always an exit-flagged node.
                        proof {
                            assert(self.graph.node_count() + 1 <= (w as int) * (h as int));
                            lemma_square_le(
                                self.graph.node_count() + 1,
                                (w as int) * (h as int),
                            );
                        }
                        proof {
                            assert(!straight_pattern(g, x as int, y as int));
                            assert(touches_edge(g, x as int, y as int));
                        }
                        let id = self.graph.add_node(((x, y), true));
                        let ghost up0 = upper@[x as int];
                        let ghost lm0 = left_mark;
                        if b_absent {
                            if let Some(up) = upper[x as usize] {
                                wire_nodes(&mut self.graph, up, id);
                            }
                        }
                        if r_absent {
                            if let Some(lm) = left_mark {
                                wire_nodes(&mut self.graph, lm, id);
                            }
                        }
                        if t_open {
                            if b_open {
                                upper[x as usize] = Some(id);
                            } else {
                                upper[x as usize] = None;
                            }
                        } else {
                            upper[x as usize] = Some(id);
                        }
                        if l_open {
                            left_mark = None;
                        } else {
                            left_mark = Some(id);
                        }
                        proof {
                            let idi = st.nodes.len() as int;
                            assert(!st2.failed);
                            assert(st2.nodes == st.nodes.push(((x, y), true)));
                            assert forall|uu: int, vv: int|
                                0 <= uu < self.graph.node_count() && 0 <= vv
                                    < self.graph.node_count() implies #[trigger] self.graph.edge_at(
                                uu,
                                vv,
                            ) == (if st2.links.contains_key((uu, vv)) {
                                Some(st2.links[(uu, vv)])
                            } else {
                                None
                            }) by {
                                if uu == idi || vv == idi {
                                    if b_absent && up0 is Some && ((uu == up0.unwrap() as int && vv
                                        == idi) || (uu == idi && vv == up0.unwrap() as int)) {
                                        assert(self.graph.edge_at(uu, vv) == Some(0isize));
                                        assert(st2.links.contains_key((uu, vv)));
                                        assert(st2.links[(uu, vv)] == 0isize);
                                    } else if r_absent && lm0 is Some && ((uu == lm0.unwrap() as int
                                        && vv == idi) || (uu == idi && vv == lm0.unwrap() as int)) {
                                        assert(self.graph.edge_at(uu, vv) == Some(0isize));
                                        assert(st2.links.contains_key((uu, vv)));
                                        assert(st2.links[(uu, vv)] == 0isize);
                                    } else {
                                        assert(self.graph.edge_at(uu, vv) is None);
                                        assert(!st.links.contains_key((uu, vv)));
                                        assert(!st2.links.contains_key((uu, vv)));
                                    }
                                } else {
                                    assert(self.graph.edge_at(uu, vv) == (
                                    if st.links.contains_key((uu, vv)) {
                                        Some(st.links[(uu, vv)])
                                    } else {
                                        None
                                    }));
                                    assert(st2.links.contains_key((uu, vv))
                                        == st.links.contains_key((uu, vv)));
                                }
                            }
                        }
                    } else {
                        // Interior tile with all four neighbors present.
                        let all_wall = !t_open && !r_open && !b_open && !l_open;
                        if all_wall {
                            proof {
                                assert(all_sides_closed(g, x as int, y as int));
                                assert(st2 == st);
                            }
                        } else {
                            proof {
                                assert(!all_sides_closed(g, x as int, y as int));
                            }
                            let top_missing = t_open && upper[x as usize].is_none();
                            let left_missing = l_open && left_mark.is_none();
                            if top_missing || left_missing {
                                proof {
                                    assert(st2.failed);
                                    lemma_failed_sticky(
                                        g,
                                        y as int,
                                        x as int + 1,
                                        h as int,
                                        0,
                                    );
                                }
                                return Err(MazeError::MalformedMaze);
                            }
                            proof {
                                assert(self.graph.node_count() + 1 <= (w as int) * (h as int));
                                lemma_square_le(
                                    self.graph.node_count() + 1,
                                    (w as int) * (h as int),
                                );
                            }
                            proof {
                                assert(!straight_pattern(g, x as int, y as int));
                                assert(!touches_edge(g, x as int, y as int));
                            }
                            let id = self.graph.add_node(((x, y), false));
                            let ghost up0 = upper@[x as int];
                            let ghost lm0 = left_mark;
                            if t_open {
                                if let Some(up) = upper[x as usize] {
                                    wire_nodes(&mut self.graph, up, id);
                                } else {
                                    proof {
                                        assert(false);
                                    }
                                }
                            }
                            if l_open {
                                if let Some(lm) = left_mark {
                                    wire_nodes(&mut self.graph, lm, id);
                                } else {
                                    proof {
                                        assert(false);
                                    }
                                }
                            }
                            if t_open {
                                if b_open {
                                    upper[x as usize] = Some(id);
                                } else {
                                    upper[x as usize] = None;
                                }
                            } else {
                                upper[x as usize] = Some(id);
                            }
                            if l_open {
                                if r_open {
                                    left_mark = Some(id);
                                } else {
                                    left_mark = None;
                                }
                            } else {
                                left_mark = Some(id);
                            }
                            proof {
                                let idi = st.nodes.len() as int;
                                assert(!st2.failed);
                                assert(st2.nodes == st.nodes.push(((x, y), false)));
                                assert forall|uu: int, vv: int|
                                    0 <= uu < self.graph.node_count() && 0 <= vv
                                        < self.graph.node_count() implies #[trigger] self.graph.edge_at(
                                    uu,
                                    vv,
                                ) == (if st2.links.contains_key((uu, vv)) {
                                    Some(st2.links[(uu, vv)])
                                } else {
                                    None
                                }) by {
                                    if uu == idi || vv == idi {
                                        if t_open && up0 is Some && ((uu == up0.unwrap() as int
                                            && vv == idi) || (uu == idi && vv == up0.unwrap() as int)) {
                                            assert(self.graph.edge_at(uu, vv) == Some(0isize));
                                            assert(st2.links.contains_key((uu, vv)));
                                            assert(st2.links[(uu, vv)] == 0isize);
                                        } else if l_open && lm0 is Some && ((uu == lm0.unwrap() as int
                                            && vv == idi) || (uu == idi && vv == lm0.unwrap() as int)) {
                                            assert(self.graph.edge_at(uu, vv) == Some(0isize));
                                            assert(st2.links.contains_key((uu, vv)));
                                            assert(st2.links[(uu, vv)] == 0isize);
                                        } else {
                                            assert(self.graph.edge_at(uu, vv) is None);
                                            assert(!st.links.contains_key((uu, vv)));
                                            assert(!st2.links.contains_key((uu, vv)));
                                        }
                                    } else {
                                        assert(self.graph.edge_at(uu, vv) == (
                                        if st.links.contains_key((uu, vv)) {
                                            Some(st.links[(uu, vv)])
                                        } else {
                                            None
                                        }));
                                        assert(st2.links.contains_key((uu, vv))
                                            == st.links.contains_key((uu, vv)));
                                    }
                                }
                            }
                        }
                    }
                } else {
                    // A wall interrupts both corridors through this tile.
                    upper[x as usize] = None;
                    left_mark = None;
                    proof {
                        assert(!tile_open(g, x as int, y as int));
                        assert(st2.nodes == st.nodes);
                        assert(st2.links == st.links);
                        assert(st2.upper == st.upper.update(x as int, None::<int>));
                        assert(st2.left_mark is None);
                    }
                }
                x += 1;
            }
            proof {
                assert(scan_upto(g, y as int + 1, 0) == scan_upto(g, y as int, w as int));
                assert((y as int) * (w as int) + (w as int) == (y as int + 1) * (w as int))
                    by (nonlinear_arith);
            }
            y += 1;
        }
        proof {
            assert(scan_model(g) == scan_upto(g, h as int, 0));
        }
        Ok(())
    }
}


/// How many entries of a visited record are set.
pub open spec fn count_true(s: Seq<bool>) -> int
    decreases s.len(),
{
    if s.len() == 0 {
        0
    } else {
        count_true(s.drop_last()) + if s.last() {
            1int
        } else {
            0int
        }
    }
}

/// A visited record never counts more entries than it has.
proof fn lemma_count_true_le(s: Seq<bool>)
    ensures
        0 <= count_true(s) <= s.len(),
    decreases s.len(),
{
    if s.len() > 0 {
        lemma_count_true_le(s.drop_last());
    }
}

/// Setting one unset entry raises the count by exactly one.
proof fn lemma_count_true_update(s: Seq<bool>, i: int)
    requires
        0 <= i < s.len(),
        !s[i],
    ensures
        count_true(s.update(i, true)) == count_true(s) + 1,
    decreases s.len(),
{
    let s2 = s.update(i, true);
    if i == s.len() - 1 {
        assert(s2.drop_last() =~= s.drop_last());
    } else {
        assert(s2.drop_last() =~= s.drop_last().update(i, true));
        lemma_count_true_update(s.drop_last(), i);
        assert(s2.last() == s.last());
    }
}

/// What enqueueing the first `j` listed neighbors does to queue and visited
/// record: each not yet visited one is appended and marked, in listing order.
pub open spec fn enqueue_new(nbrs: Seq<usize>, j: int, queue: Seq<usize>, visited: Seq<bool>) -> (
    Seq<usize>,
    Seq<bool>,
)
    decreases j,
{
    if j <= 0 {
        (queue, visited)
    } else {
        let prev = enqueue_new(nbrs, j - 1, queue, visited);
        let nb = nbrs[j - 1] as int;
        if 0 <= nb < prev.1.len() && !prev.1[nb] {
            (prev.0.push(nbrs[j - 1]), prev.1.update(nb, true))
        } else {
            prev
        }
    }
}

/// Enqueueing keeps the visited record's length and marks exactly one entry
/// per appended id.
proof fn lemma_enqueue_props(nbrs: Seq<usize>, j: int, queue: Seq<usize>, visited: Seq<bool>)
    requires
        j >= 0,
    ensures
        enqueue_new(nbrs, j, queue, visited).1.len() == visited.len(),
        enqueue_new(nbrs, j, queue, visited).0.len() >= queue.len(),
        count_true(enqueue_new(nbrs, j, queue, visited).1) - count_true(visited) == enqueue_new(
            nbrs,
            j,
            queue,
            visited,
        ).0.len() - queue.len(),
    decreases j,
{
    if j > 0 {
        lemma_enqueue_props(nbrs, j - 1, queue, visited);
        let prev = enqueue_new(nbrs, j - 1, queue, visited);
        let nb = nbrs[j - 1] as int;
        if 0 <= nb < prev.1.len() && !prev.1[nb] {
            lemma_count_true_update(prev.1, nb);
        }
    }
}

/// The breadth-first traversal, one dequeued node per unfolding: an
/// exit-flagged node ends the search with its coordinate once a first
/// exit-flagged node (normally the start) has been passed over; otherwise its
/// unvisited neighbors are enqueued in ascending id order.
pub open spec fn bfs_rec(
    gr: Graph<((u32, u32), bool)>,
    queue: Seq<usize>,
    visited: Seq<bool>,
    skipped: bool,
) -> Option<(u32, u32)>
    decreases visited.len() - count_true(visited), queue.len(),
        via bfs_rec_decreases
{
    let n = gr.node_count();
    if queue.len() == 0 {
        None
    } else {
        let cur = queue[0] as int;
        if !(cur < n) {
            None
        } else if gr.node_at(cur).element.1 && skipped {
            Some(gr.node_at(cur).element.0)
        } else {
            let nbrs = gr.neighbors_upto(cur, n);
            let step = enqueue_new(nbrs, nbrs.len() as int, queue.drop_first(), visited);
            bfs_rec(gr, step.0, step.1, skipped || gr.node_at(cur).element.1)
        }
    }
}

#[via_fn]
proof fn bfs_rec_decreases(
    gr: Graph<((u32, u32), bool)>,
    queue: Seq<usize>,
    visited: Seq<bool>,
    skipped: bool,
) {
    lemma_count_true_le(visited);
    if queue.len() > 0 {
        let n = gr.node_count();
        let cur = queue[0] as int;
        if cur < n && !(gr.node_at(cur).element.1 && skipped) {
            let nbrs = gr.neighbors_upto(cur, n);
            lemma_enqueue_props(nbrs, nbrs.len() as int, queue.drop_first(), visited);
            lemma_count_true_le(
                enqueue_new(nbrs, nbrs.len() as int, queue.drop_first(), visited).1,
            );
        }
    }
}

/// A visited record of length `n` with exactly the start id marked.
pub open spec fn seeded_visited(n: nat, start: usize) -> Seq<bool> {
    Seq::new(n, |i: int| i == start as int)
}

/// The whole exit search from a start id: breadth-first from a queue and a
/// visited record seeded with the start; `None` when the id is no node.
pub open spec fn bfs_spec(gr: Graph<((u32, u32), bool)>, start: usize) -> Option<(u32, u32)> {
    if (start as int) < gr.node_count() {
        bfs_rec(gr, seq![start], seeded_visited(gr.node_count() as nat, start), false)
    } else {
        None
    }
}

/// The lowest node id whose coordinate is `entry`, among ids below `upto`.
pub open spec fn entry_node(gr: Graph<((u32, u32), bool)>, entry: (u32, u32), upto: int) -> Option<
    int,
>
    decreases upto,
{
    if upto <= 0 {
        None
    } else if entry_node(gr, entry, upto - 1) is Some {
        entry_node(gr, entry, upto - 1)
    } else if gr.node_at(upto - 1).element.0 == entry {
        Some(upto - 1)
    } else {
        None
    }
}

/// What solving a maze returns: the exit search started at the node that sits
/// on the entry tile, or nothing when no node sits there.
pub open spec fn solve_spec(gr: Graph<((u32, u32), bool)>, entry: (u32, u32)) -> Option<(u32, u32)> {
    match entry_node(gr, entry, gr.node_count()) {
        Some(id) => bfs_spec(gr, id as usize),
        None => None,
    }
}

impl Maze {
    /// Breadth-first search over a finished graph from `start_node_index`:
    /// returns the coordinate of the first exit-flagged node dequeued after
    /// one exit-flagged node (normally the start itself) has been passed
    /// over, ties broken by discovery order, or `None` when the queue runs
    /// dry or the start id is no node.
    pub fn bfs(graph: &Graph<((u32, u32), bool)>, start_node_index: usize) -> (r: Option<(u32, u32)>)
        requires
            graph.wf(),
        ensures
            r == bfs_spec(*graph, start_node_index),
    {
        let ghost gr = *graph;
        let n = graph.get_node_amount();
        if start_node_index >= n {
            return None;
        }
        let mut queue: VecDeque<usize> = VecDeque::new();
        let mut visited: Vec<bool> = Vec::new();
        while visited.len() < n
            invariant
                visited@.len() <= n,
                forall|k: int| 0 <= k < visited@.len() ==> !visited@[k],
            decreases n - visited@.len(),
        {
            visited.push(false);
        }
        queue.push_back(start_node_index);
        visited[start_node_index] = true;
        proof {
            assert(queue@ =~= seq![start_node_index]);
            assert(visited@ =~= seeded_visited(gr.node_count() as nat, start_node_index));
        }
        let mut skipped = false;
        while queue.len() != 0
            invariant
                gr == *graph,
                visited@.len() == gr.node_count(),
                forall|k: int| 0 <= k < queue@.len() ==> (#[trigger] queue@[k] as int) < gr.node_count(),
                bfs_rec(gr, queue@, visited@, skipped) == bfs_spec(gr, start_node_index),
            decreases visited@.len() - count_true(visited@), queue@.len(),
        {
            let ghost q_pre = queue@;
            let ghost v_pre = visited@;
            let ghost skipped_pre = skipped;
            proof {
                lemma_count_true_le(v_pre);
            }
            let cur = match queue.pop_front() {
                Some(c) => c,
                None => {
                    proof {
                        assert(false);
                    }
                    0
                },
            };
            proof {
                assert(queue@ =~= q_pre.drop_first());
            }
            let (coord, is_exit) = match graph.get_node(cur) {
                Ok(nd) => nd.element,
                Err(_) => {
                    proof {
                        assert(false);
                    }
                    ((0u32, 0u32), false)
                },
            };
            if is_exit && skipped {
                proof {
                    assert(bfs_rec(gr, q_pre, v_pre, skipped_pre) == Some(coord));
                }
                return Some(coord);
            }
            let nbrs = match graph.get_neighbors(cur) {
                Ok(v) => v,
                Err(_) => {
                    proof {
                        assert(false);
                    }
                    Vec::new()
                },
            };
            proof {
                assert(gr.node_count() <= usize::MAX);
                lemma_neighbors_upto_bounds(graph, cur as int, gr.node_count());
            }
            let ghost q0 = queue@;
            let ghost v0 = visited@;
            let mut j: usize = 0;
            while j < nbrs.len()
                invariant
                    j <= nbrs@.len(),
                    gr == *graph,
                    nbrs@ == gr.neighbors_upto(cur as int, gr.node_count()),
                    forall|k: int|
                        0 <= k < nbrs@.len() ==> (#[trigger] nbrs@[k] as int) < gr.node_count(),
                    forall|k: int|
                        0 <= k < q0.len() ==> (#[trigger] q0[k] as int) < gr.node_count(),
                    v0.len() == gr.node_count(),
                    (queue@, visited@) == enqueue_new(nbrs@, j as int, q0, v0),
                    forall|k: int|
                        0 <= k < queue@.len() ==> (#[trigger] queue@[k] as int) < gr.node_count(),
                    visited@.len() == gr.node_count(),
                decreases nbrs@.len() - j,
            {
                let nb = nbrs[j];
                if !visited[nb] {
                    queue.push_back(nb);
                    visited[nb] = true;
                }
                j += 1;
                proof {
                    assert((queue@, visited@) == enqueue_new(nbrs@, j as int, q0, v0));
                }
            }
            skipped = skipped || is_exit;
            proof {
                lemma_enqueue_props(nbrs@, nbrs@.len() as int, q0, v0);
                lemma_count_true_le(visited@);
                assert(bfs_rec(gr, q_pre, v_pre, skipped_pre) == bfs_rec(
                    gr,
                    queue@,
                    visited@,
                    skipped,
                ));
            }
        }
        proof {
            assert(bfs_rec(gr, queue@, visited@, skipped) is None);
        }
        None
    }

    /// Solves the maze: finds the node sitting on the entry tile and runs the
    /// breadth-first exit search from it. Returns the exit coordinate, or
    /// `None` when the entry tile carries no node or no second exit-flagged
    /// node is reachable.
    pub fn solve_maze(maze: &Maze) -> (r: Option<(u32, u32)>)
        requires
            maze.wf(),
        ensures
            r == solve_spec(maze.graph_spec(), maze.entry_spec()),
    {
        let ghost gr = maze.graph_spec();
        let graph = maze.get_graph();
        let n = graph.get_node_amount();
        let mut found: Option<usize> = None;
        let mut idx: usize = 0;
        while idx < n
            invariant
                idx <= n,
                gr == *graph,
                n == gr.node_count(),
                match found {
                    Some(u) => entry_node(gr, maze.entry_spec(), idx as int) == Some(u as int) && u
                        < n,
                    None => entry_node(gr, maze.entry_spec(), idx as int) is None,
                },
            decreases n - idx,
        {
            if found.is_none() {
                match graph.get_node(idx) {
                    Ok(nd) => {
                        let c = nd.element.0;
                        if c.0 == maze.entry.0 && c.1 == maze.entry.1 {
                            found = Some(idx);
                        }
                    },
                    Err(_) => {
                        proof {
                            assert(false);
                        }
                    },
                }
            }
            idx += 1;
        }
        match found {
            Some(id) => Self::bfs(graph, id),
            None => None,
        }
    }
}

/// The row of the next unvisited tile in column `c`, when the scan stands
/// before tile `x` of row `y`: columns left of `x` are next visited one row
/// further down.
pub open spec fn next_row(y: int, x: int, c: int) -> int {
    if c < x {
        y + 1
    } else {
        y
    }
}

/// The `upper` frontier is ready for every read still to come: where the next
/// tile of an interior column is open with an open tile above it, the column
/// holds a node.
pub open spec fn upper_ready(g: GridModel, st: ScanModel, y: int, x: int) -> bool {
    forall|c: int|
        1 <= c < g.width - 1 && 1 <= next_row(y, x, c) < g.height - 1 && tile_open(
            g,
            c,
            next_row(y, x, c) - 1,
        ) && tile_open(g, c, next_row(y, x, c)) ==> (#[trigger] st.upper[c]) is Some
}

/// The `left` mark is ready for the read the next tile may make: where the
/// next tile is interior and open with an open tile to its left, the mark
/// holds a node.
pub open spec fn left_ready(g: GridModel, st: ScanModel, y: int, x: int) -> bool {
    (1 <= x < g.width - 1 && 1 <= y < g.height - 1 && tile_open(g, x - 1, y) && tile_open(g, x, y))
        ==> st.left_mark is Some
}

/// Every prefix of a scan keeps its frontier ready and therefore never fails:
/// a corridor reaching an interior junction from above or from the left
/// always ends in a recorded node.
proof fn lemma_scan_ready(g: GridModel, y: int, x: int)
    requires
        grid_wf(g),
        0 <= y,
        0 <= x <= g.width,
    ensures
        !scan_upto(g, y, x).failed,
        scan_upto(g, y, x).upper.len() == g.width,
        upper_ready(g, scan_upto(g, y, x), y, x),
        left_ready(g, scan_upto(g, y, x), y, x),
    decreases y, x,
{
    let st = scan_upto(g, y, x);
    if y <= 0 && x <= 0 {
    } else if x <= 0 {
        assert(st == scan_upto(g, y - 1, g.width));
        lemma_scan_ready(g, y - 1, g.width);
        assert forall|c: int|
            1 <= c < g.width - 1 && 1 <= next_row(y, x, c) < g.height - 1 && tile_open(
                g,
                c,
                next_row(y, x, c) - 1,
            ) && tile_open(g, c, next_row(y, x, c)) implies (#[trigger] st.upper[c]) is Some by {
            assert(next_row(y, x, c) == y);
            assert(next_row(y - 1, g.width, c) == y);
        }
    } else {
        let st1 = scan_upto(g, y, x - 1);
        assert(st == scan_step(g, st1, x - 1, y));
        lemma_scan_ready(g, y, x - 1);
        let cx = x - 1;
        // The step cannot fail: where an interior junction reads a frontier
        // slot, readiness at the previous position provides the node.
        if tile_open(g, cx, y) && !straight_pattern(g, cx, y) && !touches_edge(g, cx, y)
            && !all_sides_closed(g, cx, y) {
            if tile_open(g, cx, y - 1) {
                assert(next_row(y, x - 1, cx) == y);
                assert(st1.upper[cx] is Some);
            }
            if tile_open(g, cx - 1, y) {
                assert(st1.left_mark is Some);
            }
        }
        assert(!st.failed);
        // Readiness moves along: only column `cx` and the mark can change,
        // and every branch leaves them ready for their next reads.
        assert forall|c: int|
            1 <= c < g.width - 1 && 1 <= next_row(y, x, c) < g.height - 1 && tile_open(
                g,
                c,
                next_row(y, x, c) - 1,
            ) && tile_open(g, c, next_row(y, x, c)) implies (#[trigger] st.upper[c]) is Some by {
            if c != cx {
                assert(next_row(y, x, c) == next_row(y, x - 1, c));
                assert(st1.upper[c] is Some);
                assert(st.upper[c] == st1.upper[c]);
            } else {
                // The next read of this column is at (cx, y + 1), so the tile
                // just visited is open, and open downward.
                assert(next_row(y, x, cx) == y + 1);
                assert(tile_open(g, cx, y));
                assert(tile_open(g, cx, y + 1));
                if straight_pattern(g, cx, y) {
                    // Open downward rules out the horizontal pattern, and the
                    // vertical one inherits the node from above the corridor.
                    assert(vertical_straight(g, cx, y));
                    assert(next_row(y, x - 1, cx) == y);
                    assert(st1.upper[cx] is Some);
                } else {
                    // A junction here, boundary or interior, records itself:
                    // the tile below it is open, so the column mark is set.
                    assert(!all_sides_closed(g, cx, y));
                    assert(st.upper[cx] is Some);
                }
            }
        }
        if 1 <= x < g.width - 1 && 1 <= y < g.height - 1 && tile_open(g, cx, y) && tile_open(
            g,
            x,
            y,
        ) {
            if straight_pattern(g, cx, y) {
                // Open to the right rules out the vertical pattern, and the
                // horizontal one inherits the mark from the corridor's start.
                assert(horizontal_straight(g, cx, y));
                assert(st1.left_mark is Some);
            } else if touches_edge(g, cx, y) {
                // An interior row with room to the right: only the left edge,
                // whose closed left side records the node in the row mark.
                assert(cx == 0);
                assert(!tile_open(g, cx - 1, y));
                assert(st.left_mark is Some);
            } else {
                assert(!all_sides_closed(g, cx, y));
                assert(st.left_mark is Some);
            }
        }
    }
}

/// The scan of a well-formed grid never fails: whenever an interior junction
/// reads `upper` or `left`, the open corridor that reaches it from above or
/// from the left has already recorded a node there.
pub proof fn lemma_scan_never_fails(g: GridModel)
    requires
        grid_wf(g),
    ensures
        !scan_model(g).failed,
{
    lemma_scan_ready(g, g.height, 0);
}

/// A node payload fits its tile: the scan creates nodes only on open,
/// non-straight, non-isolated tiles, and flags exactly the edge-touching ones.
pub open spec fn node_matches(g: GridModel, nd: ((u32, u32), bool)) -> bool {
    &&& makes_node(g, nd.0.0 as int, nd.0.1 as int)
    &&& nd.1 == touches_edge(g, nd.0.0 as int, nd.0.1 as int)
}

/// The raster position of a node's tile.
pub open spec fn node_raster(g: GridModel, nd: ((u32, u32), bool)) -> int {
    (nd.0.1 as int) * g.width + (nd.0.0 as int)
}

/// Shape of the node list of every prefix of a scan that has not failed:
/// every node sits on a tile the scan makes a node for, with the exit flag of
/// that tile; the nodes appear in strict raster order, all before the current
/// position; and every node-making tile before the current position has its
/// node.
proof fn lemma_scan_upto_shape(g: GridModel, y: int, x: int)
    requires
        grid_wf(g),
        g.width <= u32::MAX,
        g.height <= u32::MAX,
        0 <= y,
        0 <= x <= g.width,
        !scan_upto(g, y, x).failed,
    ensures
        forall|i: int|
            0 <= i < scan_upto(g, y, x).nodes.len() ==> node_matches(
                g,
                #[trigger] scan_upto(g, y, x).nodes[i],
            ) && node_raster(g, scan_upto(g, y, x).nodes[i]) < y * g.width + x,
        forall|i: int, j: int|
            0 <= i < j < scan_upto(g, y, x).nodes.len() ==> node_raster(
                g,
                #[trigger] scan_upto(g, y, x).nodes[i],
            ) < node_raster(g, #[trigger] scan_upto(g, y, x).nodes[j]),
        forall|a: int, b: int|
            0 <= a < g.width && 0 <= b < g.height && b * g.width + a < y * g.width + x
                && #[trigger] makes_node(g, a, b) ==> exists|i: int|
                0 <= i < scan_upto(g, y, x).nodes.len() && #[trigger] scan_upto(g, y, x).nodes[i]
                    == ((a as u32, b as u32), touches_edge(g, a, b)),
    decreases y, x,
{
    let st = scan_upto(g, y, x);
    if y <= 0 && x <= 0 {
        assert forall|a: int, b: int|
            0 <= a < g.width && 0 <= b < g.height && b * g.width + a < y * g.width + x
                && #[trigger] makes_node(g, a, b) implies exists|i: int|
            0 <= i < st.nodes.len() && #[trigger] st.nodes[i] == (
            (a as u32, b as u32),
            touches_edge(g, a, b),
        ) by {
            lemma_grid_index(g.width, g.height, a, b);
            assert(y * g.width + x <= 0);
        }
    } else if x <= 0 {
        // Start of a row: the same state as the end of the previous row.
        assert(st == scan_upto(g, y - 1, g.width));
        assert((y - 1) * g.width + g.width == y * g.width) by (nonlinear_arith);
        lemma_scan_upto_shape(g, y - 1, g.width);
    } else {
        let st1 = scan_upto(g, y, x - 1);
        assert(st == scan_step(g, st1, x - 1, y));
        assert(!st1.failed);
        lemma_scan_upto_shape(g, y, x - 1);
        let cx = x - 1;
        if tile_open(g, cx, y) && !straight_pattern(g, cx, y) && (touches_edge(g, cx, y)
            || !all_sides_closed(g, cx, y)) {
            // This tile becomes a node, appended at the end.
            let flag = touches_edge(g, cx, y);
            let nd = ((cx as u32, y as u32), flag);
            assert(st.nodes == st1.nodes.push(nd));
            assert(tile_open(g, cx, y) ==> 0 <= y < g.height);
            assert(node_matches(g, nd));
            assert(node_raster(g, nd) == y * g.width + cx);
            assert forall|a: int, b: int|
                0 <= a < g.width && 0 <= b < g.height && b * g.width + a < y * g.width + x
                    && #[trigger] makes_node(g, a, b) implies exists|i: int|
                0 <= i < st.nodes.len() && #[trigger] st.nodes[i] == (
                (a as u32, b as u32),
                touches_edge(g, a, b),
            ) by {
                if b * g.width + a < y * g.width + cx {
                    let i = choose|i: int|
                        0 <= i < st1.nodes.len() && #[trigger] st1.nodes[i] == (
                        (a as u32, b as u32),
                        touches_edge(g, a, b),
                        );
                    assert(st.nodes[i] == st1.nodes[i]);
                } else {
                    crate::graph::lemma_flat_index_injective(g.width, b, a, y, cx);
                    assert(a == cx && b == y);
                    assert(st.nodes[st1.nodes.len() as int] == nd);
                }
            }
        } else {
            // No node at this tile: a wall only clears frontier marks, and a
            // compressed or isolated open tile changes nothing.
            if !tile_open(g, cx, y) {
                assert(st.nodes == st1.nodes);
            } else {
                assert(st == st1);
            }
            assert forall|a: int, b: int|
                0 <= a < g.width && 0 <= b < g.height && b * g.width + a < y * g.width + x
                    && #[trigger] makes_node(g, a, b) implies exists|i: int|
                0 <= i < st.nodes.len() && #[trigger] st.nodes[i] == (
                (a as u32, b as u32),
                touches_edge(g, a, b),
            ) by {
                if !(b * g.width + a < y * g.width + cx) {
                    crate::graph::lemma_flat_index_injective(g.width, b, a, y, cx);
                    assert(a == cx && b == y);
                    assert(!makes_node(g, a, b));
                }
            }
        }
    }
}

/// Every mark of a scan state names an existing node.
pub open spec fn marks_bounded(st: ScanModel) -> bool {
    &&& (forall|c: int|
        0 <= c < st.upper.len() && (#[trigger] st.upper[c]) is Some ==> 0 <= st.upper[c].unwrap()
            < st.nodes.len())
    &&& (st.left_mark is Some ==> 0 <= st.left_mark.unwrap() < st.nodes.len())
}

/// Links come in two-way pairs of weight zero between distinct nodes.
pub open spec fn links_paired(st: ScanModel) -> bool {
    forall|a: int, b: int|
        #[trigger] st.links.contains_key((a, b)) ==> st.links.contains_key((b, a))
            && st.links[(a, b)] == 0isize && a != b
}

/// Every prefix of a scan wires only two-way, zero-weight links between
/// distinct existing nodes, and its frontier marks name existing nodes.
proof fn lemma_scan_upto_links(g: GridModel, y: int, x: int)
    requires
        grid_wf(g),
        0 <= y,
        0 <= x <= g.width,
    ensures
        scan_upto(g, y, x).upper.len() == g.width,
        marks_bounded(scan_upto(g, y, x)),
        links_bounded(scan_upto(g, y, x)),
        links_paired(scan_upto(g, y, x)),
    decreases y, x,
{
    let st = scan_upto(g, y, x);
    if y <= 0 && x <= 0 {
    } else if x <= 0 {
        assert(st == scan_upto(g, y - 1, g.width));
        lemma_scan_upto_links(g, y - 1, g.width);
    } else {
        let st1 = scan_upto(g, y, x - 1);
        assert(st == scan_step(g, st1, x - 1, y));
        lemma_scan_upto_links(g, y, x - 1);
        let cx = x - 1;
        let id = st1.nodes.len() as int;
        let u0 = st1.upper[cx];
        let l0 = st1.left_mark;
        let interior_fail = (tile_open(g, cx, y - 1) && u0 is None) || (tile_open(g, cx - 1, y)
            && l0 is None);
        if !st1.failed && tile_open(g, cx, y) && !straight_pattern(g, cx, y) && (touches_edge(
            g,
            cx,
            y,
        ) || (!all_sides_closed(g, cx, y) && !interior_fail)) {
            // A node is appended under id, and every link this step inserts
            // joins a frontier mark of the previous state -- an existing
            // node below id -- with the new node, in both directions.
            assert(st.nodes.len() == id + 1);
            assert forall|c: int|
                0 <= c < st.upper.len() && (#[trigger] st.upper[c]) is Some implies 0
                <= st.upper[c].unwrap() < st.nodes.len() by {
                if c != cx {
                    assert(st.upper[c] == st1.upper[c]);
                }
            }
            assert forall|a: int, b: int| #[trigger] st.links.contains_key((a, b)) implies 0 <= a
                < st.nodes.len() && 0 <= b < st.nodes.len() by {
                if st1.links.contains_key((a, b)) {
                }
            }
            assert forall|a: int, b: int| #[trigger] st.links.contains_key((a, b))
                implies st.links.contains_key((b, a)) && st.links[(a, b)] == 0isize && a != b by {
                if st1.links.contains_key((a, b)) {
                    // An old pair never involves the new id, so the step's
                    // inserts leave it as it was, partner included.
                    assert(a < id && b < id);
                    assert(st1.links.contains_key((b, a)));
                } else {
                    // A fresh pair involves the new id and a strictly older
                    // mark, and its twin is inserted beside it.
                    assert(a == id || b == id);
                }
            }
        } else {
            // No node: the links are untouched, and marks are at most
            // cleared (by a wall) or left as they were.
            assert(st.links == st1.links);
            assert forall|c: int|
                0 <= c < st.upper.len() && (#[trigger] st.upper[c]) is Some implies 0
                <= st.upper[c].unwrap() < st.nodes.len() by {
                if c != cx {
                    assert(st.upper[c] == st1.upper[c]);
                } else {
                    assert(st.upper[c] == st1.upper[c] || st.upper[c] is None);
                }
            }
        }
    }
}

/// The finished scan's links are symmetric two-way edges: a link from `a` to
/// `b` comes with the link from `b` to `a`, both of weight zero, and never
/// from a node to itself.
pub proof fn lemma_scan_links_two_way(g: GridModel)
    requires
        grid_wf(g),
    ensures
        links_paired(scan_model(g)),
{
    lemma_scan_upto_links(g, g.height, 0);
}

/// All tiles strictly between columns `x1` and `x2` of row `y` are open
/// straight-through corridor tiles.
pub open spec fn row_corridor(g: GridModel, y: int, x1: int, x2: int) -> bool {
    forall|t: int| x1 < t < x2 ==> #[trigger] tile_open(g, t, y) && horizontal_straight(g, t, y)
}

/// All tiles strictly between rows `y1` and `y2` of column `x` are open
/// straight-through corridor tiles.
pub open spec fn col_corridor(g: GridModel, x: int, y1: int, y2: int) -> bool {
    forall|t: int| y1 < t < y2 ==> #[trigger] tile_open(g, x, t) && vertical_straight(g, x, t)
}

/// Two tiles lie in one row or one column, with nothing but compressed
/// corridor tiles strictly between them.
pub open spec fn corridor_between(g: GridModel, c1: (u32, u32), c2: (u32, u32)) -> bool {
    ||| (c1.1 == c2.1 && (c1.0 as int) < (c2.0 as int) && row_corridor(
        g,
        c1.1 as int,
        c1.0 as int,
        c2.0 as int,
    ))
    ||| (c1.1 == c2.1 && (c2.0 as int) < (c1.0 as int) && row_corridor(
        g,
        c1.1 as int,
        c2.0 as int,
        c1.0 as int,
    ))
    ||| (c1.0 == c2.0 && (c1.1 as int) < (c2.1 as int) && col_corridor(
        g,
        c1.0 as int,
        c1.1 as int,
        c2.1 as int,
    ))
    ||| (c1.0 == c2.0 && (c2.1 as int) < (c1.1 as int) && col_corridor(
        g,
        c1.0 as int,
        c2.1 as int,
        c1.1 as int,
    ))
}

/// The column mark of column `c` names a node of that column whose corridor
/// runs down, through compressed tiles only, to the tile in row `nr`.
pub open spec fn upper_mark_corridor(g: GridModel, st: ScanModel, c: int, nr: int) -> bool {
    let m = st.upper[c].unwrap();
    &&& 0 <= m < st.nodes.len()
    &&& st.nodes[m].0.0 as int == c
    &&& (st.nodes[m].0.1 as int) < nr
    &&& col_corridor(g, c, st.nodes[m].0.1 as int, nr)
}

/// In a single-column grid the row mark plays the column mark's part: it
/// names a node of column zero whose corridor runs down to row `nr`.
pub open spec fn left_mark_col_corridor(g: GridModel, st: ScanModel, nr: int) -> bool {
    let m = st.left_mark.unwrap();
    &&& 0 <= m < st.nodes.len()
    &&& st.nodes[m].0.0 as int == 0
    &&& (st.nodes[m].0.1 as int) < nr
    &&& col_corridor(g, 0, st.nodes[m].0.1 as int, nr)
}

/// The row mark names a node of row `y` whose corridor runs right, through
/// compressed tiles only, to the tile in column `x`.
pub open spec fn left_mark_row_corridor(g: GridModel, st: ScanModel, y: int, x: int) -> bool {
    let m = st.left_mark.unwrap();
    &&& 0 <= m < st.nodes.len()
    &&& st.nodes[m].0.1 as int == y
    &&& (st.nodes[m].0.0 as int) < x
    &&& row_corridor(g, y, st.nodes[m].0.0 as int, x)
}

/// Frontier provenance: whenever the tile a frontier mark would next be read
/// at is open, the mark names the node its corridor genuinely runs from, so
/// every link wired so far joins two nodes of one row or column with only
/// compressed tiles between them.
proof fn lemma_scan_upto_corridors(g: GridModel, y: int, x: int)
    requires
        grid_wf(g),
        g.width <= u32::MAX,
        g.height <= u32::MAX,
        0 <= y <= g.height,
        0 <= x <= g.width,
        x > 0 ==> y < g.height,
    ensures
        scan_upto(g, y, x).upper.len() == g.width,
        forall|c: int|
            0 <= c < g.width && !scan_upto(g, y, x).failed && (#[trigger] scan_upto(
                g,
                y,
                x,
            ).upper[c]) is Some && tile_open(g, c, next_row(y, x, c)) ==> upper_mark_corridor(
                g,
                scan_upto(g, y, x),
                c,
                next_row(y, x, c),
            ),
        g.width == 1 && !scan_upto(g, y, x).failed && scan_upto(g, y, x).left_mark is Some
            ==> left_mark_col_corridor(g, scan_upto(g, y, x), next_row(y, x, 0)),
        g.width >= 2 && x >= 1 && tile_open(g, x, y) && !scan_upto(g, y, x).failed && scan_upto(
            g,
            y,
            x,
        ).left_mark is Some ==> left_mark_row_corridor(g, scan_upto(g, y, x), y, x),
        forall|a: int, b: int|
            #[trigger] scan_upto(g, y, x).links.contains_key((a, b)) ==> 0 <= a < scan_upto(
                g,
                y,
                x,
            ).nodes.len() && 0 <= b < scan_upto(g, y, x).nodes.len() && corridor_between(
                g,
                scan_upto(g, y, x).nodes[a].0,
                scan_upto(g, y, x).nodes[b].0,
            ),
    decreases y, x,
{
    let st = scan_upto(g, y, x);
    if y <= 0 && x <= 0 {
    } else if x <= 0 {
        assert(st == scan_upto(g, y - 1, g.width));
        lemma_scan_upto_corridors(g, y - 1, g.width);
        assert forall|c: int| 0 <= c < g.width implies next_row(y, x, c) == next_row(
            y - 1,
            g.width,
            c,
        ) by {}
    } else {
        let st1 = scan_upto(g, y, x - 1);
        assert(st == scan_step(g, st1, x - 1, y));
        lemma_scan_upto_corridors(g, y, x - 1);
        let cx = x - 1;
        let id = st1.nodes.len() as int;
        let u0 = st1.upper[cx];
        let l0 = st1.left_mark;
        let interior_fail = (tile_open(g, cx, y - 1) && u0 is None) || (tile_open(g, cx - 1, y)
            && l0 is None);
        let makes = tile_open(g, cx, y) && !straight_pattern(g, cx, y) && (touches_edge(g, cx, y)
            || (!all_sides_closed(g, cx, y) && !interior_fail));
        if !st1.failed && makes {
            // A node is appended on this tile. Its wires read marks whose
            // provenance the previous position supplies, since this very
            // tile is the open tile those marks were kept ready for.
            let nd = ((cx as u32, y as u32), touches_edge(g, cx, y));
            assert(st.nodes == st1.nodes.push(nd));
            // Wires reach only corridor-backed marks.
            assert forall|a: int, b: int| #[trigger] st.links.contains_key((a, b)) implies 0 <= a
                < st.nodes.len() && 0 <= b < st.nodes.len() && corridor_between(
                g,
                st.nodes[a].0,
                st.nodes[b].0,
            ) by {
                if st1.links.contains_key((a, b)) {
                    assert(st.nodes[a] == st1.nodes[a]);
                    assert(st.nodes[b] == st1.nodes[b]);
                } else {
                    // One of this step's inserts: a mark paired with the new
                    // node, in one or the other direction.
                    let p = if a == id {
                        b
                    } else {
                        a
                    };
                    assert(a == id || b == id);
                    if touches_edge(g, cx, y) {
                        assert((y + 1 >= g.height && u0 is Some && p == u0.unwrap()) || (x
                            >= g.width && l0 is Some && p == l0.unwrap()));
                        if y + 1 >= g.height && u0 is Some && p == u0.unwrap() {
                            assert(next_row(y, x - 1, cx) == y);
                            assert(upper_mark_corridor(g, st1, cx, y));
                        } else {
                            assert(x >= g.width && l0 is Some && p == l0.unwrap());
                            if g.width == 1 {
                                assert(left_mark_col_corridor(g, st1, y));
                            } else {
                                assert(cx >= 1 && tile_open(g, cx, y));
                                assert(left_mark_row_corridor(g, st1, y, cx));
                            }
                        }
                    } else {
                        let t = tile_open(g, cx, y - 1);
                        let l = tile_open(g, cx - 1, y);
                        assert((t && u0 is Some && p == u0.unwrap()) || (l && l0 is Some && p
                            == l0.unwrap()));
                        if t && u0 is Some && p == u0.unwrap() {
                            assert(next_row(y, x - 1, cx) == y);
                            assert(upper_mark_corridor(g, st1, cx, y));
                        } else {
                            assert(l && l0 is Some && p == l0.unwrap());
                            assert(g.width >= 2 && cx >= 1 && tile_open(g, cx, y));
                            assert(left_mark_row_corridor(g, st1, y, cx));
                        }
                    }
                    assert(st.nodes[p] == st1.nodes[p]);
                    assert(st.nodes[id] == nd);
                    assert(corridor_between(g, st.nodes[a].0, st.nodes[b].0));
                }
            }
            // The column mark of this column now names this node or is
            // cleared; other columns are untouched and their next tile is
            // the same one as before.
            assert forall|c: int|
                0 <= c < g.width && !st.failed && (#[trigger] st.upper[c]) is Some && tile_open(
                    g,
                    c,
                    next_row(y, x, c),
                ) implies upper_mark_corridor(g, st, c, next_row(y, x, c)) by {
                if c != cx {
                    assert(st.upper[c] == st1.upper[c]);
                    assert(next_row(y, x, c) == next_row(y, x - 1, c));
                    assert forall|m: int| 0 <= m < st1.nodes.len() implies st.nodes[m]
                        == st1.nodes[m] by {}
                } else {
                    assert(next_row(y, x, cx) == y + 1);
                    assert(st.upper[cx] == Some(id) || st.upper[cx] is None);
                }
            }
            if g.width == 1 && st.left_mark is Some {
                assert(st.left_mark == Some(id));
                assert(next_row(y, x, 0) == y + 1);
            }
            if g.width >= 2 && x >= 1 && tile_open(g, x, y) && st.left_mark is Some {
                assert(st.left_mark == Some(id) || st.left_mark == l0);
                if st.left_mark == Some(id) {
                } else {
                    // The mark survived the junction only in the model's
                    // cleared cases, so here it is the node itself.
                    assert(st.left_mark is None);
                }
            }
        } else {
            // No node appended: links unchanged; nodes unchanged; marks are
            // unchanged, cleared by a wall, or frozen by a failure.
            assert(st.links == st1.links);
            assert(st.nodes == st1.nodes);
            assert forall|c: int|
                0 <= c < g.width && !st.failed && (#[trigger] st.upper[c]) is Some && tile_open(
                    g,
                    c,
                    next_row(y, x, c),
                ) implies upper_mark_corridor(g, st, c, next_row(y, x, c)) by {
                assert(!st1.failed);
                if c != cx {
                    assert(st.upper[c] == st1.upper[c]);
                    assert(next_row(y, x, c) == next_row(y, x - 1, c));
                } else {
                    assert(st.upper[cx] == st1.upper[cx] || st.upper[cx] is None);
                    assert(st.upper[cx] == st1.upper[cx]);
                    assert(next_row(y, x, cx) == y + 1);
                    assert(tile_open(g, cx, y + 1));
                    if !tile_open(g, cx, y) {
                        // A wall clears the mark, so nothing is claimed.
                        assert(false);
                    } else if straight_pattern(g, cx, y) {
                        // Openness below rules the horizontal pattern out.
                        assert(vertical_straight(g, cx, y));
                        assert(next_row(y, x - 1, cx) == y);
                        assert(upper_mark_corridor(g, st1, cx, y));
                        assert(upper_mark_corridor(g, st, cx, y + 1));
                    } else {
                        // An isolated tile is walled below.
                        assert(all_sides_closed(g, cx, y));
                        assert(false);
                    }
                }
            }
            if !st.failed && g.width == 1 && st.left_mark is Some {
                assert(!st1.failed);
                assert(st.left_mark == st1.left_mark);
                assert(next_row(y, x, 0) == y + 1);
                if !tile_open(g, cx, y) {
                    assert(false);
                } else {
                    // In one column every open tile is a node or a vertical
                    // corridor tile; here it is the latter, which extends
                    // the corridor by one row.
                    assert(straight_pattern(g, cx, y) || all_sides_closed(g, cx, y));
                    assert(!horizontal_straight(g, cx, y));
                    assert(!all_sides_closed(g, cx, y) || touches_edge(g, cx, y));
                    assert(vertical_straight(g, cx, y));
                    assert(left_mark_col_corridor(g, st1, y));
                }
            }
            if !st.failed && g.width >= 2 && x >= 1 && tile_open(g, x, y) && st.left_mark is Some {
                assert(!st1.failed);
                assert(st.left_mark == st1.left_mark);
                if !tile_open(g, cx, y) {
                    assert(false);
                } else {
                    // Openness to the right rules the vertical pattern and
                    // the isolated pattern out: a corridor tile extends the
                    // row corridor by one column.
                    assert(horizontal_straight(g, cx, y));
                    assert(cx >= 1);
                    assert(left_mark_row_corridor(g, st1, y, cx));
                }
            }
        }
    }
}

/// Every link of the finished scan joins two existing, distinct junction
/// nodes that lie in one row or one column, with nothing but open,
/// compressed straight-through tiles strictly between them. Together with
/// `lemma_nodes_match_tiles`, those intervening tiles carry no node.
pub proof fn lemma_links_follow_corridors(g: GridModel)
    requires
        grid_wf(g),
        g.width <= u32::MAX,
        g.height <= u32::MAX,
    ensures
        forall|a: int, b: int|
            #[trigger] scan_model(g).links.contains_key((a, b)) ==> 0 <= a < scan_model(
                g,
            ).nodes.len() && 0 <= b < scan_model(g).nodes.len() && corridor_between(
                g,
                scan_model(g).nodes[a].0,
                scan_model(g).nodes[b].0,
            ),
{
    lemma_scan_upto_corridors(g, g.height, 0);
}

/// Every node of a finished scan sits on a tile the scan makes a node for,
/// and carries the exit flag exactly when that tile touches the image edge.
/// In particular, a node on a tile with no boundary adjacency is never
/// exit-flagged, and no node sits on a straight-through or isolated tile.
pub proof fn lemma_nodes_match_tiles(g: GridModel)
    requires
        grid_wf(g),
        g.width <= u32::MAX,
        g.height <= u32::MAX,
        !scan_model(g).failed,
    ensures
        forall|i: int|
            0 <= i < scan_model(g).nodes.len() ==> node_matches(
                g,
                #[trigger] scan_model(g).nodes[i],
            ),
{
    lemma_scan_upto_shape(g, g.height, 0);
}

/// Straight-corridor compression: a tile whose neighbor pattern is
/// straight-through never carries a node, so the finished scan holds no node
/// with its coordinate.
pub proof fn lemma_straight_tile_no_node(g: GridModel, x: int, y: int)
    requires
        grid_wf(g),
        g.width <= u32::MAX,
        g.height <= u32::MAX,
        tile_open(g, x, y),
        straight_pattern(g, x, y),
        !scan_model(g).failed,
    ensures
        forall|i: int|
            0 <= i < scan_model(g).nodes.len() ==> (#[trigger] scan_model(g).nodes[i]).0 != (
            x as u32,
            y as u32,
            ),
{
    lemma_scan_upto_shape(g, g.height, 0);
    assert forall|i: int|
        0 <= i < scan_model(g).nodes.len() implies (#[trigger] scan_model(g).nodes[i]).0 != (
        x as u32,
        y as u32,
    ) by {
        let nd = scan_model(g).nodes[i];
        assert(node_matches(g, nd));
        if nd.0 == (x as u32, y as u32) {
            assert(nd.0.0 as int == x && nd.0.1 as int == y);
            assert(!straight_pattern(g, x, y));
        }
    }
}

/// Boundary forces a node: an open tile that touches the image edge, unless
/// its pattern is straight-through, yields exactly one node in the finished
/// scan, and that node is exit-flagged.
pub proof fn lemma_boundary_forces_node(g: GridModel, x: int, y: int)
    requires
        grid_wf(g),
        g.width <= u32::MAX,
        g.height <= u32::MAX,
        tile_open(g, x, y),
        touches_edge(g, x, y),
        !straight_pattern(g, x, y),
        !scan_model(g).failed,
    ensures
        exists|i: int|
            0 <= i < scan_model(g).nodes.len() && #[trigger] scan_model(g).nodes[i] == (
            (x as u32, y as u32),
            true,
        ),
        forall|i: int|
            0 <= i < scan_model(g).nodes.len() && (#[trigger] scan_model(g).nodes[i]).0 == (
            x as u32,
            y as u32,
            ) ==> scan_model(g).nodes[i] == ((x as u32, y as u32), true),
        forall|i: int, j: int|
            0 <= i < scan_model(g).nodes.len() && 0 <= j < scan_model(g).nodes.len() && (
            #[trigger] scan_model(g).nodes[i]).0 == (x as u32, y as u32) && (
            #[trigger] scan_model(g).nodes[j]).0 == (x as u32, y as u32) ==> i == j,
{
    lemma_scan_upto_shape(g, g.height, 0);
    assert(makes_node(g, x, y));
    assert(0 * g.width == 0) by (nonlinear_arith);
    assert(y * g.width + x < g.height * g.width + 0) by (nonlinear_arith)
        requires
            0 <= x < g.width,
            0 <= y < g.height,
    ;
    assert(g.height * g.width == g.width * g.height) by (nonlinear_arith);
    assert forall|i: int|
        0 <= i < scan_model(g).nodes.len() && (#[trigger] scan_model(g).nodes[i]).0 == (
        x as u32,
        y as u32,
    ) implies scan_model(g).nodes[i] == ((x as u32, y as u32), true) by {
        let nd = scan_model(g).nodes[i];
        assert(node_matches(g, nd));
        assert(nd.0.0 as int == x && nd.0.1 as int == y);
        assert(nd.1 == touches_edge(g, x, y));
    }
    assert forall|i: int, j: int|
        0 <= i < scan_model(g).nodes.len() && 0 <= j < scan_model(g).nodes.len() && (
        #[trigger] scan_model(g).nodes[i]).0 == (x as u32, y as u32) && (#[trigger] scan_model(
        g,
    ).nodes[j]).0 == (x as u32, y as u32) implies i == j by {
        if i != j {
            assert(node_raster(g, scan_model(g).nodes[i]) == node_raster(g, scan_model(g).nodes[j]));
        }
    }
}

} // verus!
