use vstd::prelude::*;

use crate::direction::{move_index, move_index_spec, lemma_move_index_in_range, Direction};
use crate::tile::{
    edge_clear, edge_seq, grid_views, has_connection, tile_views, Tile, TileView,
};

verus! {

/// The values kept by the `Some` cells of a grid, in grid order.
pub open spec fn flatten_somes(s: Seq<Option<TileView>>) -> Seq<TileView>
    decreases s.len(),
{
    if s.len() == 0 {
        Seq::empty()
    } else {
        flatten_somes(s.drop_last()) + match s.last() {
            Some(t) => seq![t],
            None => Seq::empty(),
        }
    }
}

pub proof fn lemma_flatten_somes_len(s: Seq<Option<TileView>>)
    ensures
        flatten_somes(s).len() <= s.len(),
    decreases s.len(),
{
    if s.len() > 0 {
        lemma_flatten_somes_len(s.drop_last());
    }
}

/// On a grid with no empty cell, flattening just unwraps every cell.
pub proof fn lemma_flatten_somes_dense(s: Seq<Option<TileView>>)
    requires
        forall|i: int| 0 <= i < s.len() ==> s[i] is Some,
    ensures
        flatten_somes(s) == s.map(|i: int, o: Option<TileView>| o->0),
    decreases s.len(),
{
    let m = s.map(|i: int, o: Option<TileView>| o->0);
    if s.len() == 0 {
        assert(flatten_somes(s) =~= m);
    } else {
        lemma_flatten_somes_dense(s.drop_last());
        assert(s.drop_last().map(|i: int, o: Option<TileView>| o->0) =~= m.drop_last());
        assert(flatten_somes(s) =~= m);
    }
}

/// One step of connectivity over a sequence of collapsed tiles: the tile at
/// `p` has a connection on some side, and the step along that side lands on
/// `q`.
pub open spec fn step(g: Seq<TileView>, size: int, p: int, q: int) -> bool {
    &&& 0 <= p < g.len()
    &&& exists|d: Direction| !edge_clear(edge_seq(g[p].edges, d))
        && move_index_spec(p, size, d) == Some(q)
}

/// `path` walks from `start` to `goal`, both included, by single steps.
pub open spec fn is_path(g: Seq<TileView>, size: int, path: Seq<usize>, start: int, goal: int) -> bool {
    &&& path.len() >= 1
    &&& path[0] == start
    &&& path[path.len() - 1] == goal
    &&& forall|i: int| #![trigger path[i]] 0 <= i < path.len() - 1
        ==> step(g, size, path[i] as int, path[i + 1] as int)
}

/// Some walk joins `start` to `goal`.
pub open spec fn reachable(g: Seq<TileView>, size: int, start: int, goal: int) -> bool {
    exists|path: Seq<usize>| is_path(g, size, path, start, goal)
}

/// What one side of a cell contributes to its successors: the step target,
/// when the side carries a connection and the step stays on the grid.
pub open spec fn successor_part(g: Seq<TileView>, size: int, p: int, d: Direction) -> Seq<
    usize,
> {
    if 0 <= p < g.len() && !edge_clear(edge_seq(g[p].edges, d)) && move_index_spec(
        p,
        size,
        d,
    ) is Some {
        seq![move_index_spec(p, size, d)->0 as usize]
    } else {
        Seq::empty()
    }
}

/// Reachability testing over a solved grid: from each cell, every direction
/// whose edge signature holds a connection leads to the neighboring cell.
pub struct Pathfinding {
    pub size: usize,
    pub grid: Vec<Tile>,
}

impl Pathfinding {
    pub open spec fn wf(self) -> bool {
        &&& 1 <= self.size
        &&& self.size * self.size <= usize::MAX
        &&& self.grid@.len() <= self.size * self.size
    }

    /// The tiles the tester walks over, as mathematical values.
    pub open spec fn tiles(self) -> Seq<TileView> {
        tile_views(self.grid@)
    }

    /// One step of connectivity from `p` to `q` over this tester's tiles.
    pub open spec fn step(self, p: int, q: int) -> bool {
        step(self.tiles(), self.size as int, p, q)
    }

    /// `path` walks from `start` to `goal` over this tester's tiles.
    pub open spec fn is_path(self, path: Seq<usize>, start: int, goal: int) -> bool {
        is_path(self.tiles(), self.size as int, path, start, goal)
    }

    /// Some walk joins `start` to `goal` over this tester's tiles.
    pub open spec fn reachable(self, start: int, goal: int) -> bool {
        reachable(self.tiles(), self.size as int, start, goal)
    }

    /// The tester over a grid snapshot; empty cells are dropped, which keeps
    /// the indexing only when the grid is dense.
    pub fn new(size: usize, grid: Vec<Option<Tile>>) -> (r: Self)
        requires
            1 <= size,
            size * size <= usize::MAX,
            grid@.len() <= size * size,
        ensures
            r.size == size,
            tile_views(r.grid@) == flatten_somes(grid_views(grid@)),
            r.wf(),
            (forall|i: int| 0 <= i < grid@.len() ==> grid@[i] is Some)
                ==> tile_views(r.grid@) == grid_views(grid@).map(
                    |i: int, o: Option<TileView>| o->0,
                ),
    {
        let mut tiles: Vec<Tile> = Vec::new();
        let mut i: usize = 0;
        while i < grid.len()
            invariant
                i <= grid@.len(),
                tile_views(tiles@) == flatten_somes(grid_views(grid@).take(i as int)),
            decreases grid.len() - i,
        {
            let ghost prefix = grid_views(grid@).take(i as int);
            proof {
                assert(grid_views(grid@).take(i + 1).drop_last() =~= prefix);
                assert(grid_views(grid@).take(i + 1).last() == grid_views(grid@)[i as int]);
            }
            match &grid[i] {
                Some(t) => {
                    tiles.push(t.clone());
                    proof {
                        assert(tile_views(tiles@) =~= flatten_somes(
                            grid_views(grid@).take(i + 1)));
                    }
                },
                None => {
                    proof {
                        assert(tile_views(tiles@) =~= flatten_somes(
                            grid_views(grid@).take(i + 1)));
                    }
                },
            }
            i += 1;
        }
        proof {
            assert(grid_views(grid@).take(grid@.len() as int) =~= grid_views(grid@));
            lemma_flatten_somes_len(grid_views(grid@));
            if forall|k: int| 0 <= k < grid@.len() ==> grid@[k] is Some {
                assert(forall|k: int| 0 <= k < grid_views(grid@).len()
                    ==> grid_views(grid@)[k] is Some);
                lemma_flatten_somes_dense(grid_views(grid@));
            }
        }
        Pathfinding { size, grid: tiles }
    }

    /// The cells one connected step away from `position`, in the order
    /// north, east, south, west.
    #[verifier::rlimit(60)]
    pub fn get_successors(&self, position: usize) -> (r: Vec<usize>)
        requires
            self.wf(),
            position < self.size * self.size,
        ensures
            forall|q: usize| r@.contains(q) <==> self.step(position as int, q as int),
            forall|i: int| 0 <= i < r@.len() ==> r@[i] < self.size * self.size,
            r@ == successor_part(self.tiles(), self.size as int, position as int,
                Direction::North) + successor_part(self.tiles(), self.size as int,
                position as int, Direction::East) + successor_part(self.tiles(),
                self.size as int, position as int, Direction::South) + successor_part(
                self.tiles(), self.size as int, position as int, Direction::West),
    {
        let ghost ts = self.tiles();
        let ghost si = self.size as int;
        let ghost p = position as int;
        let mut successors: Vec<usize> = Vec::new();
        if position >= self.grid.len() {
            proof {
                assert(forall|q: usize| !self.step(position as int, q as int));
                assert(successors@ =~= successor_part(ts, si, p, Direction::North)
                    + successor_part(ts, si, p, Direction::East) + successor_part(
                    ts, si, p, Direction::South) + successor_part(
                    ts, si, p, Direction::West));
            }
            return successors;
        }
        let tile = &self.grid[position];
        let north = if has_connection(&tile.edges.north) {
            move_index(position, self.size, Direction::North)
        } else {
            None
        };
        let east = if has_connection(&tile.edges.east) {
            move_index(position, self.size, Direction::East)
        } else {
            None
        };
        let south = if has_connection(&tile.edges.south) {
            move_index(position, self.size, Direction::South)
        } else {
            None
        };
        let west = if has_connection(&tile.edges.west) {
            move_index(position, self.size, Direction::West)
        } else {
            None
        };
        if let Some(j) = north {
            successors.push(j);
            proof {
                assert(successors@[successors@.len() - 1] == j);
            }
        }
        let ghost s1 = successors@;
        if let Some(j) = east {
            successors.push(j);
            proof {
                assert(successors@[successors@.len() - 1] == j);
            }
        }
        let ghost s2 = successors@;
        if let Some(j) = south {
            successors.push(j);
            proof {
                assert(successors@[successors@.len() - 1] == j);
            }
        }
        let ghost s3 = successors@;
        if let Some(j) = west {
            successors.push(j);
            proof {
                assert(successors@[successors@.len() - 1] == j);
            }
        }
        proof {
            assert(match north {
                Some(j) => successor_part(ts, si, p, Direction::North) == seq![j],
                None => successor_part(ts, si, p, Direction::North) == Seq::<usize>::empty(),
            });
            assert(match east {
                Some(j) => successor_part(ts, si, p, Direction::East) == seq![j],
                None => successor_part(ts, si, p, Direction::East) == Seq::<usize>::empty(),
            });
            assert(match south {
                Some(j) => successor_part(ts, si, p, Direction::South) == seq![j],
                None => successor_part(ts, si, p, Direction::South) == Seq::<usize>::empty(),
            });
            assert(match west {
                Some(j) => successor_part(ts, si, p, Direction::West) == seq![j],
                None => successor_part(ts, si, p, Direction::West) == Seq::<usize>::empty(),
            });
            assert(successors@ =~= successor_part(ts, si, p, Direction::North)
                + successor_part(ts, si, p, Direction::East) + successor_part(
                ts, si, p, Direction::South) + successor_part(ts, si, p, Direction::West));
            let s4 = successors@;
            assert(north is Some ==> s1.contains(north->0));
            assert(east is Some ==> s2.contains(east->0));
            assert(south is Some ==> s3.contains(south->0));
            assert(west is Some ==> s4.contains(west->0));
            assert forall|q: usize| s1.contains(q) implies s2.contains(q) by {
                let k = choose|k: int| 0 <= k < s1.len() && s1[k] == q;
                assert(s2[k] == q);
            };
            assert forall|q: usize| s2.contains(q) implies s3.contains(q) by {
                let k = choose|k: int| 0 <= k < s2.len() && s2[k] == q;
                assert(s3[k] == q);
            };
            assert forall|q: usize| s3.contains(q) implies s4.contains(q) by {
                let k = choose|k: int| 0 <= k < s3.len() && s3[k] == q;
                assert(s4[k] == q);
            };
            assert forall|q: usize| s4.contains(q)
                implies self.step(p, q as int) by {
                let k = choose|k: int| 0 <= k < s4.len() && s4[k] == q;
                assert(north == Some(q) || east == Some(q) || south == Some(q)
                    || west == Some(q));
                if north == Some(q) {
                    assert(!edge_clear(edge_seq(self.tiles()[p].edges, Direction::North))
                        && move_index_spec(p, self.size as int, Direction::North)
                            == Some(q as int));
                } else if east == Some(q) {
                    assert(!edge_clear(edge_seq(self.tiles()[p].edges, Direction::East))
                        && move_index_spec(p, self.size as int, Direction::East)
                            == Some(q as int));
                } else if south == Some(q) {
                    assert(!edge_clear(edge_seq(self.tiles()[p].edges, Direction::South))
                        && move_index_spec(p, self.size as int, Direction::South)
                            == Some(q as int));
                } else {
                    assert(!edge_clear(edge_seq(self.tiles()[p].edges, Direction::West))
                        && move_index_spec(p, self.size as int, Direction::West)
                            == Some(q as int));
                }
            };
            assert forall|q: usize| self.step(p, q as int)
                implies s4.contains(q) by {
                let d = choose|d: Direction| !edge_clear(edge_seq(self.tiles()[p].edges, d))
                    && move_index_spec(p, self.size as int, d) == Some(q as int);
                match d {
                    Direction::North => {
                        assert(north == Some(q));
                        assert(s1.contains(q));
                    },
                    Direction::East => {
                        assert(east == Some(q));
                        assert(s2.contains(q));
                    },
                    Direction::South => {
                        assert(south == Some(q));
                        assert(s3.contains(q));
                    },
                    Direction::West => {
                        assert(west == Some(q));
                        assert(s4.contains(q));
                    },
                }
            };
        }
        successors
    }

    /// The successors of `position`, each paired with the uniform step cost 1.
    pub fn successor_costs(&self, position: usize) -> (r: Vec<(usize, usize)>)
        requires
            self.wf(),
            position < self.size * self.size,
        ensures
            forall|i: int| 0 <= i < r@.len()
                ==> (#[trigger] r@[i]).1 == 1 && self.step(position as int, r@[i].0 as int),
            forall|q: usize| self.step(position as int, q as int)
                ==> exists|i: int| 0 <= i < r@.len() && (#[trigger] r@[i]).0 == q,
    {
        let s = self.get_successors(position);
        let mut r: Vec<(usize, usize)> = Vec::new();
        let mut i: usize = 0;
        while i < s.len()
            invariant
                i <= s@.len(),
                r@.len() == i,
                forall|k: int| 0 <= k < i ==> (#[trigger] r@[k]).1 == 1 && r@[k].0 == s@[k],
                forall|q: usize| s@.contains(q) <==> self.step(position as int, q as int),
            decreases s.len() - i,
        {
            r.push((s[i], 1));
            i += 1;
        }
        proof {
            assert forall|k: int| 0 <= k < r@.len()
                implies (#[trigger] r@[k]).1 == 1
                    && self.step(position as int, r@[k].0 as int) by {
                assert(s@.contains(s@[k]));
            };
            assert forall|q: usize| self.step(position as int, q as int)
                implies exists|k: int| 0 <= k < r@.len() && (#[trigger] r@[k]).0 == q by {
                assert(s@.contains(q));
                let k = choose|k: int| 0 <= k < s@.len() && s@[k] == q;
                assert((r@[k]).0 == q);
            };
        }
        r
    }

    /// The Manhattan distance between two cells' grid coordinates.
    pub fn distance(&self, position: usize, goal: usize) -> (r: usize)
        requires
            self.wf(),
            position < self.size * self.size,
            goal < self.size * self.size,
        ensures
            ({
                let px = position as int % self.size as int;
                let py = position as int / self.size as int;
                let gx = goal as int % self.size as int;
                let gy = goal as int / self.size as int;
                r == (if px >= gx { px - gx } else { gx - px })
                    + (if py >= gy { py - gy } else { gy - py })
            }),
    {
        proof {
            crate::direction::lemma_grid_coords(position as int, self.size as int);
            crate::direction::lemma_grid_coords(goal as int, self.size as int);
            assert(2 * self.size <= self.size * self.size + 1) by (nonlinear_arith)
                requires 1 <= self.size;
        }
        let px = position % self.size;
        let py = position / self.size;
        let gx = goal % self.size;
        let gy = goal / self.size;
        let dx = if px >= gx { px - gx } else { gx - px };
        let dy = if py >= gy { py - gy } else { gy - py };
        dx + dy
    }

    /// Every cell of a walk lies inside the grid square.
    proof fn lemma_path_elem_range(self, path: Seq<usize>, start: int, goal: int, i: int)
        requires
            self.wf(),
            self.is_path(path, start, goal),
            0 <= start < self.size * self.size,
            0 <= i < path.len(),
        ensures
            path[i] < self.size * self.size,
        decreases i,
    {
        if i == 0 {
        } else {
            self.lemma_path_elem_range(path, start, goal, i - 1);
            assert(self.step(path[i - 1] as int, path[i] as int));
            let p = path[i - 1] as int;
            let d = choose|d: Direction| !edge_clear(edge_seq(self.tiles()[p].edges, d))
                && move_index_spec(p, self.size as int, d) == Some(path[i] as int);
            lemma_move_index_in_range(p, self.size as int, d);
        }
    }

    /// Relies on pathfinding's `astar`: the returned walk leads from `start`
    /// to the first node that satisfies the success test, both ends included,
    /// and `None` comes back exactly when no walk exists.  The reported cost
    /// sums the per-edge costs, which the successor closure fixes at one, so
    /// it is the number of steps of the walk; a start that already satisfies
    /// the success test comes back at once as the one-node walk of cost
    /// zero.  The successor, heuristic and success closures only call this
    /// type's verified methods, so the outcome is stated over their
    /// specifications.
    #[verifier::external_body]
    fn astar_search(&self, start: usize, goal: usize) -> (r: Option<(Vec<usize>, usize)>)
        requires
            self.wf(),
            start < self.size * self.size,
            goal < self.size * self.size,
        ensures
            match r {
                Some(pc) => self.is_path(pc.0@, start as int, goal as int) && pc.1 == pc.0@.len()
                    - 1 && (start == goal ==> pc.0@ == seq![start]),
                None => !self.reachable(start as int, goal as int),
            },
    {
        pathfinding::prelude::astar(
            &start,
            |p: &usize| self.successor_costs(*p),
            |p: &usize| self.distance(*p, goal),
            |p: &usize| *p == goal,
        )
    }

    /// Whether the goal cell can be walked to from the start cell; on success
    /// the walk itself and its cost come back, both ends included.
    pub fn test(&self, start: (usize, usize), goal: (usize, usize)) -> (r: Option<
        (Vec<usize>, usize),
    >)
        requires
            self.wf(),
            start.0 < self.size,
            start.1 < self.size,
            goal.0 < self.size,
            goal.1 < self.size,
        ensures
            ({
                let s = start.1 * self.size + start.0;
                let g = goal.1 * self.size + goal.0;
                match r {
                    Some(pc) => self.is_path(pc.0@, s as int, g as int) && pc.1 == pc.0@.len()
                        - 1 && (s == g ==> pc.0@ == seq![s as usize] && pc.1 == 0)
                        && forall|i: int| 0 <= i < pc.0@.len()
                            ==> #[trigger] pc.0@[i] < self.size * self.size,
                    None => !self.reachable(s as int, g as int),
                }
            }),
    {
        proof {
            assert(start.1 * self.size + start.0 < self.size * self.size
                && goal.1 * self.size + goal.0 < self.size * self.size) by (nonlinear_arith)
                requires
                    start.0 < self.size,
                    start.1 < self.size,
                    goal.0 < self.size,
                    goal.1 < self.size,
                    1 <= self.size,
            ;
        }
        let s = start.1 * self.size + start.0;
        let g = goal.1 * self.size + goal.0;
        let r = self.astar_search(s, g);
        proof {
            if r is Some {
                let path = (r->0).0@;
                assert forall|i: int| 0 <= i < path.len()
                    implies #[trigger] path[i] < self.size * self.size by {
                    self.lemma_path_elem_range(path, s as int, g as int, i);
                };
            }
        }
        r
    }
}

} // verus!
