use vstd::prelude::*;

use rand::rngs::ThreadRng;

use crate::direction::{move_index, move_index_spec, opposite, Direction};
use crate::pathfind::{is_path, reachable, Pathfinding};
use crate::raster::TileImage;
use crate::rng::{rand_below, rand_below_u64};
use crate::tile::{
    bytes_eq, edge_clear, edge_seq, grid_views, has_connection, tile_views, Edges, EdgesView,
    Tile, TileView,
};

verus! {

/// One immutable copy of the grid at some point of a solve.
#[derive(Debug, Default)]
pub struct Snapshot {
    pub grid: Vec<Option<Tile>>,
}

impl View for Snapshot {
    type V = Seq<Option<TileView>>;

    open spec fn view(&self) -> Seq<Option<TileView>> {
        grid_views(self.grid@)
    }
}

/// An element-for-element copy of a grid of optional tiles.
pub fn clone_grid(g: &Vec<Option<Tile>>) -> (r: Vec<Option<Tile>>)
    ensures
        grid_views(r@) == grid_views(g@),
        r@.len() == g@.len(),
{
    let mut r: Vec<Option<Tile>> = Vec::new();
    let mut i: usize = 0;
    while i < g.len()
        invariant
            i <= g@.len(),
            r@.len() == i,
            grid_views(r@) =~= grid_views(g@).take(i as int),
        decreases g.len() - i,
    {
        let ghost prev = r@;
        let cell = match &g[i] {
            Some(t) => Some(t.clone()),
            None => None,
        };
        proof {
            assert(match cell {
                Some(ref c) => g@[i as int] is Some && c@ == g@[i as int]->0@,
                None => g@[i as int] is None,
            });
        }
        r.push(cell);
        proof {
            assert forall|k: int| 0 <= k < i + 1 implies grid_views(r@)[k] == grid_views(
                g@).take(i + 1)[k] by {
                if k < i {
                    assert(r@[k] == prev[k]);
                    assert(grid_views(prev)[k] == grid_views(g@).take(i as int)[k]);
                }
            };
            assert(grid_views(r@) =~= grid_views(g@).take(i + 1));
        }
        i += 1;
    }
    proof {
        assert(grid_views(g@).take(g@.len() as int) =~= grid_views(g@));
    }
    r
}

impl Clone for Snapshot {
    /// A clone keeps every cell.
    fn clone(&self) -> (r: Self)
        ensures
            r@ == self@,
    {
        Snapshot { grid: clone_grid(&self.grid) }
    }
}

/// A weight or neighbor-allow-list override for the variant cut from asset
/// `index`, or a plain extra variant with empty edges.
#[derive(Debug)]
pub struct Variants {
    pub index: usize,
    pub weight: u32,
    pub neighbors: Option<Vec<usize>>,
}

/// The mathematical value of a [`Variants`] entry.
#[verifier::ext_equal]
pub ghost struct VariantsView {
    pub index: usize,
    pub weight: u32,
    pub neighbors: Option<Seq<usize>>,
}

impl View for Variants {
    type V = VariantsView;

    open spec fn view(&self) -> VariantsView {
        VariantsView {
            index: self.index,
            weight: self.weight,
            neighbors: match self.neighbors {
                Some(ref v) => Some(v@),
                None => None,
            },
        }
    }
}

/// The mathematical values of the explicit variant entries.
pub open spec fn entry_views(es: Seq<Variants>) -> Seq<VariantsView> {
    es.map(|i: int, e: Variants| e@)
}

/// The position of the first catalog variant cut from asset `a`, or -1.
pub open spec fn first_asset(vs: Seq<TileView>, a: usize) -> int
    decreases vs.len(),
{
    if vs.len() == 0 {
        -1
    } else if vs[0].asset == a {
        0
    } else {
        let r = first_asset(vs.drop_first(), a);
        if r < 0 {
            -1
        } else {
            r + 1
        }
    }
}

/// One explicit entry applied to the catalog: the first variant with its
/// asset index takes the entry's weight and allow-list; when none exists, a
/// fresh variant with empty edges is appended.
pub open spec fn apply_entry(vs: Seq<TileView>, e: VariantsView) -> Seq<TileView> {
    let k = first_asset(vs, e.index);
    if k >= 0 {
        vs.update(k, TileView { weight: e.weight, neighbors: e.neighbors, ..vs[k] })
    } else {
        vs.push(
            TileView {
                edges: EdgesView {
                    north: Seq::empty(),
                    east: Seq::empty(),
                    south: Seq::empty(),
                    west: Seq::empty(),
                },
                asset: e.index,
                direction: Direction::North,
                weight: e.weight,
                path: false,
                neighbors: e.neighbors,
            },
        )
    }
}

/// All explicit entries applied in order.
pub open spec fn apply_entries(vs: Seq<TileView>, es: Seq<VariantsView>) -> Seq<TileView>
    decreases es.len(),
{
    if es.len() == 0 {
        vs
    } else {
        apply_entry(apply_entries(vs, es.drop_last()), es.last())
    }
}

/// A found position is a real position, and it holds the asset looked for.
pub proof fn lemma_first_asset_range(vs: Seq<TileView>, a: usize)
    ensures
        first_asset(vs, a) == -1 || (0 <= first_asset(vs, a) < vs.len() && vs[first_asset(
            vs,
            a,
        )].asset == a),
    decreases vs.len(),
{
    if vs.len() > 0 && vs[0].asset != a {
        lemma_first_asset_range(vs.drop_first(), a);
        if first_asset(vs.drop_first(), a) >= 0 {
            assert(vs.drop_first()[first_asset(vs.drop_first(), a)] == vs[first_asset(vs, a)]);
        }
    }
}

/// Applying entries never shrinks the catalog, and grows it by at most one
/// variant per entry.
pub proof fn lemma_apply_entries_len(vs: Seq<TileView>, es: Seq<VariantsView>)
    ensures
        vs.len() <= apply_entries(vs, es).len() <= vs.len() + es.len(),
        es.len() >= 1 ==> apply_entries(vs, es).len() >= 1,
    decreases es.len(),
{
    if es.len() > 0 {
        lemma_apply_entries_len(vs, es.drop_last());
        let prev = apply_entries(vs, es.drop_last());
        let e = es.last();
        lemma_first_asset_range(prev, e.index);
        if first_asset(prev, e.index) >= 0 {
            assert(apply_entries(vs, es) == prev.update(
                first_asset(prev, e.index),
                TileView {
                    weight: e.weight,
                    neighbors: e.neighbors,
                    ..prev[first_asset(prev, e.index)]
                },
            ));
        } else {
            assert(apply_entries(vs, es).len() == prev.len() + 1);
        }
    }
}

/// What a catalog is built from: an optional sample image with its tile pixel
/// size, and explicit variant entries.
#[derive(Debug)]
pub struct Config {
    pub image: Option<(TileImage, usize)>,
    pub variants: Vec<Variants>,
}

/// The allow-list of `v` admits `u` beside it.
pub open spec fn allows(v: TileView, u: TileView) -> bool {
    v.neighbors is Some && v.neighbors->0.contains(u.asset)
}

/// The side of `v` facing direction `d` carries the same signature that `u`
/// shows back.
pub open spec fn edges_match(v: TileView, d: Direction, u: TileView) -> bool {
    edge_seq(v.edges, d) == edge_seq(u.edges, opposite(d))
}

/// The domain filter at a cell holding `v`, looking along `d` at an already
/// collapsed neighbor `u`: the facing signatures agree, unless the allow-list
/// of `v` overrides the rejection.
pub open spec fn compat_dir(v: TileView, d: Direction, u: TileView) -> bool {
    edges_match(v, d, u) || allows(v, u)
}

/// What holds of an adjacent collapsed pair: whichever cell collapsed later
/// was filtered against the other, so the filter holds in one of the two
/// directions.
pub open spec fn pair_ok(v: TileView, d: Direction, u: TileView) -> bool {
    edges_match(v, d, u) || allows(v, u) || allows(u, v)
}

/// The domain filter at cell `i` of grid `g`, for one direction: toward a
/// collapsed neighbor the filter must pass, and toward the map boundary the
/// outward signature must be all zero.
pub open spec fn dir_ok(
    g: Seq<Option<TileView>>,
    size: int,
    i: int,
    v: TileView,
    d: Direction,
) -> bool {
    match move_index_spec(i, size, d) {
        Some(j) => g[j] is Some ==> compat_dir(v, d, g[j]->0),
        None => edge_clear(edge_seq(v.edges, d)),
    }
}

/// Variant `v` is permissible at cell `i` of grid `g`.
pub open spec fn variant_ok_at(g: Seq<Option<TileView>>, size: int, i: int, v: TileView) -> bool {
    forall|d: Direction| #[trigger] dir_ok(g, size, i, v, d)
}

/// One collapsed cell agrees with one mutually adjacent collapsed neighbor.
pub open spec fn cell_ok(g: Seq<Option<TileView>>, size: int, i: int, d: Direction) -> bool {
    match move_index_spec(i, size, d) {
        Some(j) => (0 <= j < g.len() && g[j] is Some && move_index_spec(j, size, opposite(d))
            == Some(i)) ==> pair_ok(g[i]->0, d, g[j]->0),
        None => true,
    }
}

/// Every collapsed cell of the grid agrees with each of its mutually adjacent
/// collapsed neighbors, as the domain filter checked when the later of the
/// two was placed.
pub open spec fn consistent(g: Seq<Option<TileView>>, size: int) -> bool {
    forall|i: int, d: Direction| 0 <= i < g.len() && g[i] is Some
        ==> #[trigger] cell_ok(g, size, i, d)
}

/// A cell on the map edge admits no variant whose outward signature holds a
/// connection: the boundary rule is part of the domain filter.
pub proof fn lemma_boundary_rejects(
    g: Seq<Option<TileView>>,
    size: int,
    i: int,
    v: TileView,
    d: Direction,
)
    requires
        variant_ok_at(g, size, i, v),
        move_index_spec(i, size, d) is None,
    ensures
        edge_clear(edge_seq(v.edges, d)),
{
    assert(dir_ok(g, size, i, v, d));
}

/// Whether `list` holds the index `x`.
fn contains_index(list: &Vec<usize>, x: usize) -> (r: bool)
    ensures
        r == list@.contains(x),
{
    let mut i: usize = 0;
    while i < list.len()
        invariant
            i <= list@.len(),
            forall|k: int| 0 <= k < i ==> list@[k] != x,
        decreases list.len() - i,
    {
        if list[i] == x {
            return true;
        }
        i += 1;
    }
    false
}

/// Whether the allow-list of `v` admits `u` beside it.
fn allowed_neighbor(v: &Tile, u: &Tile) -> (r: bool)
    ensures
        r == allows(v@, u@),
{
    match &v.neighbors {
        Some(list) => contains_index(list, u.asset),
        None => false,
    }
}

/// The domain filter of one variant at one cell: every collapsed neighbor
/// must agree with the facing edge (or be admitted by the allow-list), and
/// every side that faces the map boundary must be all zero.
fn check_variant(grid: &Vec<Option<Tile>>, size: usize, index: usize, v: &Tile) -> (r: bool)
    requires
        1 <= size,
        size * size <= usize::MAX,
        grid@.len() == size * size,
        index < size * size,
    ensures
        r == variant_ok_at(grid_views(grid@), size as int, index as int, v@),
{
    let ghost gv = grid_views(grid@);
    let ghost s = size as int;
    let ghost i = index as int;

    match move_index(index, size, Direction::North) {
        Some(n) => {
            match &grid[n] {
                Some(tile) => {
                    if !bytes_eq(&v.edges.north, &tile.edges.south) && !allowed_neighbor(v, tile) {
                        proof {
                            assert(!dir_ok(gv, s, i, v@, Direction::North));
                        }
                        return false;
                    }
                    proof {
                        assert(dir_ok(gv, s, i, v@, Direction::North));
                    }
                },
                None => {
                    proof {
                        assert(dir_ok(gv, s, i, v@, Direction::North));
                    }
                },
            }
        },
        None => {
            if has_connection(&v.edges.north) {
                proof {
                    assert(!dir_ok(gv, s, i, v@, Direction::North));
                }
                return false;
            }
            proof {
                assert(dir_ok(gv, s, i, v@, Direction::North));
            }
        },
    }

    match move_index(index, size, Direction::East) {
        Some(n) => {
            match &grid[n] {
                Some(tile) => {
                    if !bytes_eq(&v.edges.east, &tile.edges.west) && !allowed_neighbor(v, tile) {
                        proof {
                            assert(!dir_ok(gv, s, i, v@, Direction::East));
                        }
                        return false;
                    }
                    proof {
                        assert(dir_ok(gv, s, i, v@, Direction::East));
                    }
                },
                None => {
                    proof {
                        assert(dir_ok(gv, s, i, v@, Direction::East));
                    }
                },
            }
        },
        None => {
            if has_connection(&v.edges.east) {
                proof {
                    assert(!dir_ok(gv, s, i, v@, Direction::East));
                }
                return false;
            }
            proof {
                assert(dir_ok(gv, s, i, v@, Direction::East));
            }
        },
    }

    match move_index(index, size, Direction::South) {
        Some(n) => {
            match &grid[n] {
                Some(tile) => {
                    if !bytes_eq(&v.edges.south, &tile.edges.north) && !allowed_neighbor(v, tile) {
                        proof {
                            assert(!dir_ok(gv, s, i, v@, Direction::South));
                        }
                        return false;
                    }
                    proof {
                        assert(dir_ok(gv, s, i, v@, Direction::South));
                    }
                },
                None => {
                    proof {
                        assert(dir_ok(gv, s, i, v@, Direction::South));
                    }
                },
            }
        },
        None => {
            if has_connection(&v.edges.south) {
                proof {
                    assert(!dir_ok(gv, s, i, v@, Direction::South));
                }
                return false;
            }
            proof {
                assert(dir_ok(gv, s, i, v@, Direction::South));
            }
        },
    }

    match move_index(index, size, Direction::West) {
        Some(n) => {
            match &grid[n] {
                Some(tile) => {
                    if !bytes_eq(&v.edges.west, &tile.edges.east) && !allowed_neighbor(v, tile) {
                        proof {
                            assert(!dir_ok(gv, s, i, v@, Direction::West));
                        }
                        return false;
                    }
                    proof {
                        assert(dir_ok(gv, s, i, v@, Direction::West));
                    }
                },
                None => {
                    proof {
                        assert(dir_ok(gv, s, i, v@, Direction::West));
                    }
                },
            }
        },
        None => {
            if has_connection(&v.edges.west) {
                proof {
                    assert(!dir_ok(gv, s, i, v@, Direction::West));
                }
                return false;
            }
            proof {
                assert(dir_ok(gv, s, i, v@, Direction::West));
            }
        },
    }

    proof {
        assert forall|d: Direction| #[trigger] dir_ok(gv, s, i, v@, d) by {
            match d {
                Direction::North => {},
                Direction::East => {},
                Direction::South => {},
                Direction::West => {},
            }
        };
    }
    true
}

/// The sum of a sequence of sampling weights.
pub open spec fn weight_total(ws: Seq<u32>) -> int
    decreases ws.len(),
{
    if ws.len() == 0 {
        0
    } else {
        weight_total(ws.drop_last()) + ws.last()
    }
}

/// A sum of weights is never negative.
pub proof fn lemma_weight_total_nonneg(ws: Seq<u32>)
    ensures
        0 <= weight_total(ws),
    decreases ws.len(),
{
    if ws.len() > 0 {
        lemma_weight_total_nonneg(ws.drop_last());
    }
}

/// Prefix sums of weights are non-negative and grow towards the total.
pub proof fn lemma_weight_total_bounds(ws: Seq<u32>, k: int)
    requires
        0 <= k <= ws.len(),
    ensures
        0 <= weight_total(ws.take(k)),
        weight_total(ws.take(k)) <= weight_total(ws),
    decreases ws.len() - k,
{
    lemma_weight_total_nonneg(ws.take(k));
    if k == ws.len() {
        assert(ws.take(k) =~= ws);
    } else {
        assert(ws.take(k + 1).drop_last() =~= ws.take(k));
        lemma_weight_total_bounds(ws, k + 1);
    }
}

/// The weights of a domain of variant indices.
pub open spec fn domain_weights(vs: Seq<Tile>, dom: Seq<usize>) -> Seq<u32> {
    dom.map(|k: int, vi: usize| vs[vi as int].weight)
}

/// The index whose prefix-sum interval a uniform draw `u` falls into: the
/// linear scan of weighted sampling.  A zero-weight entry is never selected.
pub fn select_by_weight(u: u64, weights: &Vec<u32>) -> (k: usize)
    requires
        u < weight_total(weights@),
        weight_total(weights@) <= u64::MAX,
    ensures
        k < weights@.len(),
        weights@[k as int] > 0,
        weight_total(weights@.take(k as int)) <= u < weight_total(weights@.take(k + 1)),
{
    let mut acc: u64 = 0;
    let mut i: usize = 0;
    while i < weights.len()
        invariant
            i <= weights@.len(),
            u < weight_total(weights@),
            weight_total(weights@) <= u64::MAX,
            acc == weight_total(weights@.take(i as int)),
            acc <= u,
        decreases weights.len() - i,
    {
        proof {
            assert(weights@.take(i + 1).drop_last() =~= weights@.take(i as int));
            lemma_weight_total_bounds(weights@, i + 1);
        }
        let w = weights[i];
        if u < acc + w as u64 {
            return i;
        }
        acc = acc + w as u64;
        i += 1;
    }
    proof {
        assert(weights@.take(weights@.len() as int) =~= weights@);
        assert(false);
    }
    0
}

/// A grid that admits `v` at `i` stays consistent when `v` is placed there.
pub proof fn lemma_place_keeps_consistent(
    g: Seq<Option<TileView>>,
    size: int,
    i: int,
    v: TileView,
)
    requires
        1 <= size,
        g.len() == size * size,
        0 <= i < g.len(),
        consistent(g, size),
        variant_ok_at(g, size, i, v),
    ensures
        consistent(g.update(i, Some(v)), size),
{
    let g2 = g.update(i, Some(v));
    assert forall|a: int, d: Direction| 0 <= a < g2.len() && g2[a] is Some
        implies #[trigger] cell_ok(g2, size, a, d) by {
        match move_index_spec(a, size, d) {
            Some(b) => {
                if 0 <= b < g2.len() && g2[b] is Some
                    && move_index_spec(b, size, opposite(d)) == Some(a) {
                    if a == i {
                        // the new tile was filtered against the neighbor at b
                        if g[b] is Some {
                            assert(dir_ok(g, size, i, v, d));
                            assert(compat_dir(v, d, g[b]->0));
                        }
                    } else if b == i {
                        // the new tile was filtered against the neighbor at a
                        assert(dir_ok(g, size, i, v, opposite(d)));
                        assert(compat_dir(v, opposite(d), g[a]->0));
                        assert(pair_ok(g2[a]->0, d, g2[b]->0));
                    } else {
                        assert(cell_ok(g, size, a, d));
                    }
                }
            },
            None => {},
        }
    };
}

/// The mark vector `m` records the free target of a step from the collapsed
/// cell `j` in direction `d`, if there is one.
pub open spec fn covers(
    g: Seq<Option<TileView>>,
    m: Seq<bool>,
    size: int,
    j: int,
    d: Direction,
) -> bool {
    (g[j] is Some && move_index_spec(j, size, d) is Some
        && g[move_index_spec(j, size, d)->0] is None)
        ==> m[move_index_spec(j, size, d)->0]
}

/// `dom` is exactly the domain of cell `i` of grid `g` under catalog `vs`:
/// the strictly ascending list of the catalog indices whose variants the
/// filter admits at `i`.
pub open spec fn domain_ok_for(
    vs: Seq<Tile>,
    size: int,
    g: Seq<Option<TileView>>,
    i: int,
    dom: Seq<usize>,
) -> bool {
    &&& forall|k: int| 0 <= k < dom.len() ==> #[trigger] dom[k] < vs.len() && variant_ok_at(
        g, size, i, vs[dom[k] as int]@)
    &&& forall|vi: usize| vi < vs.len() && variant_ok_at(g, size, i, vs[vi as int]@)
        ==> dom.contains(vi)
    &&& forall|k1: int, k2: int| 0 <= k1 < k2 < dom.len()
        ==> #[trigger] dom[k1] < #[trigger] dom[k2]
}

/// Two strictly ascending index lists with the same members are the same
/// list.
proof fn lemma_ascending_unique(d1: Seq<usize>, d2: Seq<usize>)
    requires
        forall|k1: int, k2: int| 0 <= k1 < k2 < d1.len() ==> #[trigger] d1[k1] < #[trigger] d1[k2],
        forall|k1: int, k2: int| 0 <= k1 < k2 < d2.len() ==> #[trigger] d2[k1] < #[trigger] d2[k2],
        forall|x: usize| #[trigger] d1.contains(x) <==> d2.contains(x),
    ensures
        d1 == d2,
    decreases d1.len(),
{
    if d1.len() == 0 {
        if d2.len() > 0 {
            assert(d2.contains(d2[0]));
            assert(d1.contains(d2[0]));
            let k = choose|k: int| 0 <= k < d1.len() && d1[k] == d2[0];
            assert(false);
        }
        assert(d1 =~= d2);
    } else {
        assert(d1.contains(d1[0]));
        assert(d2.contains(d1[0]));
        let k2 = choose|k: int| 0 <= k < d2.len() && d2[k] == d1[0];
        if k2 > 0 {
            assert(d2[0] < d2[k2]);
        }
        assert(d2.contains(d2[0]));
        assert(d1.contains(d2[0]));
        let k1 = choose|k: int| 0 <= k < d1.len() && d1[k] == d2[0];
        if k1 > 0 {
            assert(d1[0] < d1[k1]);
        }
        assert(d1[0] == d2[0]);
        let t1 = d1.drop_first();
        let t2 = d2.drop_first();
        assert forall|a: int, b: int| 0 <= a < b < t1.len()
            implies #[trigger] t1[a] < #[trigger] t1[b] by {
            assert(t1[a] == d1[a + 1] && t1[b] == d1[b + 1]);
        };
        assert forall|a: int, b: int| 0 <= a < b < t2.len()
            implies #[trigger] t2[a] < #[trigger] t2[b] by {
            assert(t2[a] == d2[a + 1] && t2[b] == d2[b + 1]);
        };
        assert forall|x: usize| #[trigger] t1.contains(x) implies t2.contains(x) by {
            let k = choose|k: int| 0 <= k < t1.len() && t1[k] == x;
            assert(d1[k + 1] == x);
            assert(d1.contains(x));
            assert(d1[0] < d1[k + 1]);
            assert(d2.contains(x));
            let m = choose|m: int| 0 <= m < d2.len() && d2[m] == x;
            assert(m > 0);
            assert(t2[m - 1] == x);
        };
        assert forall|x: usize| #[trigger] t2.contains(x) implies t1.contains(x) by {
            let k = choose|k: int| 0 <= k < t2.len() && t2[k] == x;
            assert(d2[k + 1] == x);
            assert(d2.contains(x));
            assert(d2[0] < d2[k + 1]);
            assert(d1.contains(x));
            let m = choose|m: int| 0 <= m < d1.len() && d1[m] == x;
            assert(m > 0);
            assert(t1[m - 1] == x);
        };
        assert forall|x: usize| #[trigger] t1.contains(x) implies t2.contains(x) by {};
        lemma_ascending_unique(t1, t2);
        assert forall|k: int| 0 <= k < d1.len() implies d1[k] == d2[k] by {
            if k > 0 {
                assert(t1[k - 1] == t2[k - 1]);
            }
        };
        assert(d1 =~= d2);
    }
}

/// A cell's domain list is unique: any two lists that both satisfy
/// [`domain_ok_for`] coincide.
pub proof fn lemma_domain_unique(
    vs: Seq<Tile>,
    size: int,
    g: Seq<Option<TileView>>,
    i: int,
    d1: Seq<usize>,
    d2: Seq<usize>,
)
    requires
        domain_ok_for(vs, size, g, i, d1),
        domain_ok_for(vs, size, g, i, d2),
    ensures
        d1 == d2,
{
    assert forall|x: usize| #[trigger] d1.contains(x) implies d2.contains(x) by {
        let k = choose|k: int| 0 <= k < d1.len() && d1[k] == x;
        assert(d1[k] < vs.len() && variant_ok_at(g, size, i, vs[d1[k] as int]@));
    };
    assert forall|x: usize| #[trigger] d2.contains(x) implies d1.contains(x) by {
        let k = choose|k: int| 0 <= k < d2.len() && d2[k] == x;
        assert(d2[k] < vs.len() && variant_ok_at(g, size, i, vs[d2[k] as int]@));
    };
    lemma_ascending_unique(d1, d2);
}

/// Cell `i` is free (uncollapsed) and some collapsed cell has a step onto it.
pub open spec fn is_free_neighbor(g: Seq<Option<TileView>>, size: int, i: int) -> bool {
    &&& 0 <= i < g.len()
    &&& g[i] is None
    &&& exists|j: int, d: Direction| #![trigger move_index_spec(j, size, d)] 0 <= j < g.len()
        && g[j] is Some && move_index_spec(j, size, d) == Some(i)
}

/// Every collapsed cell of the snapshot holds the value of some variant of
/// the catalog `vs`.
pub open spec fn catalog_cells(vs: Seq<Tile>, snap: Seq<Option<TileView>>) -> bool {
    forall|c: int|
        0 <= c < snap.len() && (#[trigger] snap[c]) is Some ==> exists|vi: int|
            0 <= vi < vs.len() && snap[c]->0 == (#[trigger] vs[vi])@
}

/// The same tile, now marked as lying on the validated path.
pub open spec fn mark_view(t: TileView) -> TileView {
    TileView { path: true, ..t }
}

/// The same tile as the path validator reads it: everything but the path
/// flag.
pub open spec fn same_core(a: TileView, b: TileView) -> bool {
    &&& b.edges == a.edges
    &&& b.asset == a.asset
    &&& b.neighbors == a.neighbors
}

/// `c` is one of the cells of the walk `p`.
pub open spec fn on_path(p: Seq<usize>, c: int) -> bool {
    exists|k: int| 0 <= k < p.len() && p[k] == c
}

/// The same tile with the path flag raised.
fn mark_tile(t: &Tile) -> (r: Tile)
    ensures
        r@ == mark_view(t@),
{
    let neighbors = match &t.neighbors {
        Some(v) => Some(crate::tile::copy_indices(v)),
        None => None,
    };
    let r = Tile {
        edges: t.edges.clone(),
        asset: t.asset,
        direction: t.direction,
        weight: t.weight,
        path: true,
        neighbors,
    };
    proof {
        assert(r@ =~= mark_view(t@));
    }
    r
}

/// Consistency only reads edges, assets and allow-lists, so it survives any
/// rewrite that keeps those and only drops cells or flips path flags.
pub proof fn lemma_same_core_consistent(
    g: Seq<Option<TileView>>,
    g2: Seq<Option<TileView>>,
    size: int,
)
    requires
        g.len() == g2.len(),
        consistent(g, size),
        forall|c: int| 0 <= c < g2.len() && #[trigger] g2[c] is Some
            ==> g[c] is Some && same_core(g[c]->0, g2[c]->0),
    ensures
        consistent(g2, size),
{
    assert forall|a: int, d: Direction| 0 <= a < g2.len() && g2[a] is Some
        implies #[trigger] cell_ok(g2, size, a, d) by {
        match move_index_spec(a, size, d) {
            Some(b) => {
                if 0 <= b < g2.len() && g2[b] is Some
                    && move_index_spec(b, size, opposite(d)) == Some(a) {
                    assert(cell_ok(g, size, a, d));
                    assert(pair_ok(g[a]->0, d, g[b]->0));
                    assert(edge_seq(g2[a]->0.edges, d) == edge_seq(g[a]->0.edges, d));
                    assert(edge_seq(g2[b]->0.edges, opposite(d))
                        == edge_seq(g[b]->0.edges, opposite(d)));
                    assert(pair_ok(g2[a]->0, d, g2[b]->0));
                }
            },
            None => {},
        }
    };
}

/// Which cells the column-major prune sweep has already visited when it
/// stands at column `x`, row `y`.
pub open spec fn prune_visited(size: int, x: int, y: int, c: int) -> bool {
    c % size < x || (c % size == x && c / size < y)
}

/// How many cells of a grid are still empty.
pub open spec fn count_free(g: Seq<Option<TileView>>) -> nat
    decreases g.len(),
{
    if g.len() == 0 {
        0
    } else {
        count_free(g.drop_last()) + if g.last() is None {
            1nat
        } else {
            0nat
        }
    }
}

/// Collapsing an empty cell strictly shrinks the number of empty cells.
pub proof fn lemma_count_free_update(g: Seq<Option<TileView>>, i: int, v: TileView)
    requires
        0 <= i < g.len(),
        g[i] is None,
    ensures
        count_free(g.update(i, Some(v))) < count_free(g),
    decreases g.len(),
{
    let g2 = g.update(i, Some(v));
    if i == g.len() - 1 {
        assert(g2.drop_last() =~= g.drop_last());
    } else {
        assert(g2.drop_last() =~= g.drop_last().update(i, Some(v)));
        lemma_count_free_update(g.drop_last(), i, v);
    }
}

/// A strictly ascending sequence of indices below `b` has at most `b`
/// entries.
pub proof fn lemma_ascending_bounded(s: Seq<usize>, b: int)
    requires
        forall|k1: int, k2: int| 0 <= k1 < k2 < s.len() ==> #[trigger] s[k1] < #[trigger] s[k2],
        forall|k: int| 0 <= k < s.len() ==> #[trigger] s[k] < b,
        0 <= b,
    ensures
        s.len() <= b,
{
    assert forall|k: int| 0 <= k < s.len() implies k <= #[trigger] s[k] by {
        lemma_ascending_at_least(s, k);
    };
    if s.len() > b {
        assert(s[b] < b);
        assert(b <= s[b]);
    }
}

proof fn lemma_ascending_at_least(s: Seq<usize>, k: int)
    requires
        forall|k1: int, k2: int| 0 <= k1 < k2 < s.len() ==> #[trigger] s[k1] < #[trigger] s[k2],
        0 <= k < s.len(),
    ensures
        k <= s[k],
    decreases k,
{
    if k > 0 {
        lemma_ascending_at_least(s, k - 1);
        assert(s[k - 1] < s[k]);
    }
}

/// A grid with at most one collapsed cell has no adjacent collapsed pair.
pub proof fn lemma_single_seed_consistent(g: Seq<Option<TileView>>, size: int, ci: int)
    requires
        1 <= size,
        forall|k: int| 0 <= k < g.len() && k != ci ==> g[k] is None,
    ensures
        consistent(g, size),
{
    assert forall|i: int, d: Direction| 0 <= i < g.len() && g[i] is Some
        implies #[trigger] cell_ok(g, size, i, d) by {
        match move_index_spec(i, size, d) {
            Some(j) => {
                assert(j != i);
            },
            None => {},
        }
    };
}

/// Whether every cell of the grid is collapsed.
fn grid_full(grid: &Vec<Option<Tile>>) -> (r: bool)
    ensures
        r == (forall|c: int| 0 <= c < grid@.len() ==> grid_views(grid@)[c] is Some),
{
    let mut i: usize = 0;
    while i < grid.len()
        invariant
            i <= grid@.len(),
            forall|c: int| 0 <= c < i ==> grid_views(grid@)[c] is Some,
        decreases grid.len() - i,
    {
        match &grid[i] {
            Some(_) => {},
            None => {
                proof {
                    assert(grid_views(grid@)[i as int] is None);
                }
                return false;
            },
        }
        i += 1;
    }
    true
}

/// Among the free neighbors of grid `g`, cell `i`'s domain has minimal
/// summed weight.
pub open spec fn minimal_entropy_cell(
    vs: Seq<Tile>,
    size: int,
    g: Seq<Option<TileView>>,
    i: int,
) -> bool {
    forall|j: int, di: Seq<usize>, dj: Seq<usize>|
        is_free_neighbor(g, size, j) && #[trigger] domain_ok_for(vs, size, g, i, di)
            && #[trigger] domain_ok_for(vs, size, g, j, dj) ==> weight_total(
            domain_weights(vs, di),
        ) <= weight_total(domain_weights(vs, dj))
}

/// One collapse of the solver under catalog `vs`: a free neighbor of
/// minimal domain weight-sum takes a positive-weight variant that its
/// domain admits.
pub open spec fn collapse_step(
    vs: Seq<Tile>,
    size: int,
    g1: Seq<Option<TileView>>,
    g2: Seq<Option<TileView>>,
) -> bool {
    exists|i: int, vi: int|
        #![trigger g1.update(i, Some(vs[vi]@))]
        0 <= i < g1.len() && 0 <= vi < vs.len() && is_free_neighbor(g1, size, i)
            && variant_ok_at(g1, size, i, vs[vi]@) && vs[vi]@.weight > 0
            && minimal_entropy_cell(vs, size, g1, i) && g2 == g1.update(i, Some(vs[vi]@))
}

/// The tiles of a grid with no empty cell, in grid order.
pub open spec fn dense_tiles(snap: Seq<Option<TileView>>) -> Seq<TileView> {
    snap.map(|i: int, o: Option<TileView>| o->0)
}

/// A fresh attempt grid: one cell holds a catalog variant, the rest are
/// empty.
pub open spec fn seeded_grid(vs: Seq<Tile>, g: Seq<Option<TileView>>) -> bool {
    exists|ci: int, vi: int|
        #![trigger g[ci], vs[vi]]
        0 <= ci < g.len() && 0 <= vi < vs.len() && g[ci] == Some(vs[vi]@) && (forall|k: int|
            0 <= k < g.len() && k != ci ==> g[k] is None)
}

/// The map generator: a grid side length, the history of snapshots of the
/// last build, and the variant catalog.
#[derive(Debug)]
pub struct TileMap {
    pub size: usize,
    pub history: Vec<Snapshot>,
    pub variants: Vec<Tile>,
}

impl TileMap {
    /// The machine bounds every solver step relies on.
    pub open spec fn wf_base(self) -> bool {
        &&& 1 <= self.size
        &&& self.size * self.size <= usize::MAX
        &&& self.variants@.len() <= u32::MAX
    }

    /// `dom` is exactly the domain of cell `i`: the strictly ascending list
    /// of the catalog indices whose variants the filter admits at `i`.
    pub open spec fn domain_seq_ok(
        self,
        g: Seq<Option<TileView>>,
        i: int,
        dom: Seq<usize>,
    ) -> bool {
        domain_ok_for(self.variants@, self.size as int, g, i, dom)
    }

    /// An empty map of the given side length, with no catalog yet.
    pub fn new(size: usize) -> (r: Self)
        requires
            1 <= size,
            size * size <= usize::MAX,
        ensures
            r.size == size,
            r.history@.len() == 0,
            r.variants@.len() == 0,
            r.wf_base(),
    {
        TileMap { size, history: Vec::new(), variants: Vec::new() }
    }

    /// The domain of cell `index` under the current grid: every catalog
    /// variant the filter admits there, in ascending catalog order.
    pub fn get_possible_variants(&self, grid: &Vec<Option<Tile>>, index: usize) -> (r: Vec<
        usize,
    >)
        requires
            self.wf_base(),
            grid@.len() == self.size * self.size,
            index < self.size * self.size,
        ensures
            self.domain_seq_ok(grid_views(grid@), index as int, r@),
    {
        let ghost gv = grid_views(grid@);
        let mut r: Vec<usize> = Vec::new();
        let mut vi: usize = 0;
        while vi < self.variants.len()
            invariant
                vi <= self.variants@.len(),
                self.wf_base(),
                grid@.len() == self.size * self.size,
                index < self.size * self.size,
                gv == grid_views(grid@),
                forall|k: int| 0 <= k < r@.len() ==> #[trigger] r@[k] < vi,
                forall|k: int| 0 <= k < r@.len() ==> variant_ok_at(
                    gv, self.size as int, index as int, self.variants@[r@[k] as int]@),
                forall|vj: usize| #![trigger self.variants@[vj as int]] vj < vi
                    && variant_ok_at(
                    gv, self.size as int, index as int, self.variants@[vj as int]@)
                    ==> r@.contains(vj),
                forall|k1: int, k2: int| 0 <= k1 < k2 < r@.len()
                    ==> #[trigger] r@[k1] < #[trigger] r@[k2],
            decreases self.variants.len() - vi,
        {
            let ghost prev = r@;
            let ok = check_variant(grid, self.size, index, &self.variants[vi]);
            if ok {
                r.push(vi);
                proof {
                    assert(r@[r@.len() - 1] == vi);
                }
            }
            proof {
                assert forall|vj: usize| #![trigger self.variants@[vj as int]] vj < vi + 1
                    && variant_ok_at(
                    gv, self.size as int, index as int, self.variants@[vj as int]@)
                    implies r@.contains(vj) by {
                    if vj < vi {
                        assert(prev.contains(vj));
                        let k = choose|k: int| 0 <= k < prev.len() && prev[k] == vj;
                        assert(r@[k] == vj);
                    } else {
                        assert(r@[r@.len() - 1] == vi);
                    }
                };
            }
            vi += 1;
        }
        r
    }

    /// The summed weight of a domain's variants.
    fn sum_weights(&self, dom: &Vec<usize>) -> (r: u64)
        requires
            self.wf_base(),
            dom@.len() <= u32::MAX,
            forall|k: int| 0 <= k < dom@.len() ==> #[trigger] dom@[k] < self.variants@.len(),
        ensures
            r == weight_total(domain_weights(self.variants@, dom@)),
    {
        let ghost vs = self.variants@;
        let mut acc: u64 = 0;
        let mut i: usize = 0;
        while i < dom.len()
            invariant
                i <= dom@.len(),
                dom@.len() <= u32::MAX,
                self.wf_base(),
                vs == self.variants@,
                forall|k: int| 0 <= k < dom@.len() ==> #[trigger] dom@[k] < vs.len(),
                acc == weight_total(domain_weights(vs, dom@.take(i as int))),
                acc <= i * (u32::MAX as int),
            decreases dom.len() - i,
        {
            proof {
                assert(domain_weights(vs, dom@.take(i + 1)).drop_last() =~= domain_weights(
                    vs, dom@.take(i as int)));
                assert((i + 1) * (u32::MAX as int) <= (dom@.len() as int) * (u32::MAX as int));
            }
            let w = self.variants[dom[i]].weight;
            acc = acc + w as u64;
            i += 1;
        }
        proof {
            assert(dom@.take(dom@.len() as int) =~= dom@);
        }
        acc
    }

    /// One variant drawn from the domain with probability proportional to its
    /// weight: a uniform draw below the summed weight, resolved by the linear
    /// scan of [`select_by_weight`].  Only a variant of positive weight comes
    /// back.
    pub fn weighted_variant(&self, rng: &mut ThreadRng, variants: &Vec<usize>) -> (t: Tile)
        requires
            self.wf_base(),
            variants@.len() <= u32::MAX,
            forall|k: int| 0 <= k < variants@.len()
                ==> #[trigger] variants@[k] < self.variants@.len(),
            weight_total(domain_weights(self.variants@, variants@)) > 0,
        ensures
            exists|k: int| 0 <= k < variants@.len()
                && t@ == self.variants@[#[trigger] variants@[k] as int]@
                && self.variants@[variants@[k] as int]@.weight > 0,
    {
        let ghost vs = self.variants@;
        let mut weights: Vec<u32> = Vec::new();
        let mut i: usize = 0;
        while i < variants.len()
            invariant
                i <= variants@.len(),
                vs == self.variants@,
                forall|k: int| 0 <= k < variants@.len()
                    ==> #[trigger] variants@[k] < vs.len(),
                weights@ =~= domain_weights(vs, variants@.take(i as int)),
            decreases variants.len() - i,
        {
            weights.push(self.variants[variants[i]].weight);
            proof {
                assert(weights@ =~= domain_weights(vs, variants@.take(i + 1)));
            }
            i += 1;
        }
        proof {
            assert(variants@.take(variants@.len() as int) =~= variants@);
        }
        let total = self.sum_weights(variants);
        let u = rand_below_u64(rng, total);
        let k = select_by_weight(u, &weights);
        let t = self.variants[variants[k]].clone();
        proof {
            assert(t@ == vs[variants@[k as int] as int]@);
            assert(weights@[k as int] == vs[variants@[k as int] as int].weight);
        }
        t
    }

    /// Every free cell that touches the collapsed region, in ascending index
    /// order, each with its current domain.
    pub fn get_free_neighbors(&self, grid: &Vec<Option<Tile>>) -> (r: Vec<(usize, Vec<usize>)>)
        requires
            self.wf_base(),
            grid@.len() == self.size * self.size,
        ensures
            forall|m: int| 0 <= m < r@.len() ==> is_free_neighbor(
                grid_views(grid@), self.size as int, (#[trigger] r@[m]).0 as int),
            forall|m: int| 0 <= m < r@.len() ==> self.domain_seq_ok(
                grid_views(grid@), (#[trigger] r@[m]).0 as int, r@[m].1@),
            forall|i: usize| is_free_neighbor(grid_views(grid@), self.size as int, i as int)
                ==> exists|m: int| 0 <= m < r@.len() && (#[trigger] r@[m]).0 == i,
            forall|m1: int, m2: int| 0 <= m1 < m2 < r@.len()
                ==> (#[trigger] r@[m1]).0 < (#[trigger] r@[m2]).0,
    {
        let ghost gv = grid_views(grid@);
        let ghost s = self.size as int;
        let n = grid.len();

        let mut marked: Vec<bool> = Vec::new();
        let mut i: usize = 0;
        while i < n
            invariant
                i <= n,
                marked@.len() == i,
                forall|k: int| 0 <= k < i ==> !(#[trigger] marked@[k]),
            decreases n - i,
        {
            marked.push(false);
            i += 1;
        }

        let mut j: usize = 0;
        while j < n
            invariant
                j <= n,
                n == grid@.len(),
                grid@.len() == self.size * self.size,
                self.wf_base(),
                gv == grid_views(grid@),
                s == self.size as int,
                marked@.len() == n,
                forall|k: int| 0 <= k < n && #[trigger] marked@[k]
                    ==> is_free_neighbor(gv, s, k),
                forall|j2: int, d: Direction| #![trigger move_index_spec(j2, s, d)]
                    0 <= j2 < j && gv[j2] is Some
                    && move_index_spec(j2, s, d) is Some
                    && gv[move_index_spec(j2, s, d)->0] is None
                    ==> marked@[move_index_spec(j2, s, d)->0],
            decreases n - j,
        {
            let ghost m0 = marked@;
            let collapsed = match &grid[j] {
                Some(_) => true,
                None => false,
            };
            if collapsed {
                if let Some(k) = move_index(j, self.size, Direction::North) {
                    let free = match &grid[k] {
                        Some(_) => false,
                        None => true,
                    };
                    if free {
                        marked.set(k, true);
                        proof {
                            assert(marked@[k as int]);
                        }
                    }
                }
            }
            let ghost m1 = marked@;
            proof {
                assert(covers(gv, m1, s, j as int, Direction::North));
            }
            if collapsed {
                if let Some(k) = move_index(j, self.size, Direction::East) {
                    let free = match &grid[k] {
                        Some(_) => false,
                        None => true,
                    };
                    if free {
                        marked.set(k, true);
                        proof {
                            assert(marked@[k as int]);
                        }
                    }
                }
            }
            let ghost m2 = marked@;
            proof {
                assert(covers(gv, m2, s, j as int, Direction::East));
                assert(forall|x: int| 0 <= x < m1.len() && #[trigger] m1[x] ==> m2[x]);
            }
            if collapsed {
                if let Some(k) = move_index(j, self.size, Direction::South) {
                    let free = match &grid[k] {
                        Some(_) => false,
                        None => true,
                    };
                    if free {
                        marked.set(k, true);
                        proof {
                            assert(marked@[k as int]);
                        }
                    }
                }
            }
            let ghost m3 = marked@;
            proof {
                assert(covers(gv, m3, s, j as int, Direction::South));
                assert(forall|x: int| 0 <= x < m2.len() && #[trigger] m2[x] ==> m3[x]);
            }
            if collapsed {
                if let Some(k) = move_index(j, self.size, Direction::West) {
                    let free = match &grid[k] {
                        Some(_) => false,
                        None => true,
                    };
                    if free {
                        marked.set(k, true);
                        proof {
                            assert(marked@[k as int]);
                        }
                    }
                }
            }
            proof {
                let m4 = marked@;
                assert(covers(gv, m4, s, j as int, Direction::West));
                assert(forall|x: int| 0 <= x < m3.len() && #[trigger] m3[x] ==> m4[x]);
                assert forall|j2: int, d: Direction| #![trigger move_index_spec(j2, s, d)]
                    0 <= j2 < j + 1 && gv[j2] is Some
                    && move_index_spec(j2, s, d) is Some
                    && gv[move_index_spec(j2, s, d)->0] is None
                    implies marked@[move_index_spec(j2, s, d)->0] by {
                    crate::direction::lemma_move_index_in_range(j2, s, d);
                    if j2 == j {
                        match d {
                            Direction::North => {
                                assert(covers(gv, m1, s, j2, d));
                            },
                            Direction::East => {
                                assert(covers(gv, m2, s, j2, d));
                            },
                            Direction::South => {
                                assert(covers(gv, m3, s, j2, d));
                            },
                            Direction::West => {
                                assert(covers(gv, m4, s, j2, d));
                            },
                        }
                    }
                };
            }
            j += 1;
        }

        let mut r: Vec<(usize, Vec<usize>)> = Vec::new();
        let mut k: usize = 0;
        while k < n
            invariant
                k <= n,
                n == grid@.len(),
                grid@.len() == self.size * self.size,
                self.wf_base(),
                gv == grid_views(grid@),
                s == self.size as int,
                marked@.len() == n,
                forall|c: int| 0 <= c < n ==> (#[trigger] marked@[c]
                    <==> is_free_neighbor(gv, s, c)),
                forall|m: int| 0 <= m < r@.len() ==> is_free_neighbor(
                    gv, s, (#[trigger] r@[m]).0 as int),
                forall|m: int| 0 <= m < r@.len() ==> self.domain_seq_ok(
                    gv, (#[trigger] r@[m]).0 as int, r@[m].1@),
                forall|m: int| 0 <= m < r@.len() ==> (#[trigger] r@[m]).0 < k,
                forall|i2: usize| i2 < k && is_free_neighbor(gv, s, i2 as int)
                    ==> exists|m: int| 0 <= m < r@.len() && (#[trigger] r@[m]).0 == i2,
                forall|m1: int, m2: int| 0 <= m1 < m2 < r@.len()
                    ==> (#[trigger] r@[m1]).0 < (#[trigger] r@[m2]).0,
            decreases n - k,
        {
            let ghost prev = r@;
            if marked[k] {
                let dom = self.get_possible_variants(grid, k);
                r.push((k, dom));
            }
            proof {
                assert forall|i2: usize| i2 < k + 1 && is_free_neighbor(gv, s, i2 as int)
                    implies exists|m: int| 0 <= m < r@.len()
                        && (#[trigger] r@[m]).0 == i2 by {
                    if i2 < k {
                        let m = choose|m: int| 0 <= m < prev.len() && (prev[m]).0 == i2;
                        assert((r@[m]).0 == i2);
                    } else {
                        assert((r@[r@.len() - 1]).0 == i2);
                    }
                };
            }
            k += 1;
        }
        proof {
            assert forall|i2: usize| is_free_neighbor(gv, s, i2 as int)
                implies exists|m: int| 0 <= m < r@.len() && (#[trigger] r@[m]).0 == i2 by {
                assert(i2 < n);
            };
        }
        r
    }

    /// What every snapshot of a build satisfies: full size, and consistency
    /// of every adjacent collapsed pair.
    pub open spec fn snapshot_ok(self, snap: Seq<Option<TileView>>) -> bool {
        &&& snap.len() == self.size * self.size
        &&& consistent(snap, self.size as int)
    }

    /// Every collapsed cell of the snapshot holds the value of some catalog
    /// variant.
    pub open spec fn cells_from_catalog(self, snap: Seq<Option<TileView>>) -> bool {
        catalog_cells(self.variants@, snap)
    }

    /// A fresh attempt grid: everything empty but one random seed cell, which
    /// holds one random catalog variant.
    fn clear(&self, rng: &mut ThreadRng) -> (r: Vec<Option<Tile>>)
        requires
            self.wf_base(),
            self.variants@.len() >= 1,
        ensures
            r@.len() == self.size * self.size,
            consistent(grid_views(r@), self.size as int),
            seeded_grid(self.variants@, grid_views(r@)),
    {
        let n = self.size * self.size;
        let mut grid: Vec<Option<Tile>> = Vec::new();
        let mut i: usize = 0;
        while i < n
            invariant
                i <= n,
                grid@.len() == i,
                forall|k: int| 0 <= k < i ==> grid@[k] is None,
            decreases n - i,
        {
            let ghost prev = grid@;
            grid.push(None);
            proof {
                assert forall|k: int| 0 <= k < i + 1 implies grid@[k] is None by {
                    if k < i {
                        assert(grid@[k] == prev[k]);
                    }
                };
            }
            i += 1;
        }
        proof {
            assert(1 <= n) by (nonlinear_arith)
                requires 1 <= self.size && n == self.size * self.size;
        }
        let ghost empty = grid@;
        let ci = rand_below(rng, n);
        let vi = rand_below(rng, self.variants.len());
        let seed = self.variants[vi].clone();
        grid.set(ci, Some(seed));
        proof {
            assert forall|k: int| 0 <= k < grid@.len() && k != ci
                implies grid_views(grid@)[k] is None by {
                assert(grid@[k] == empty[k]);
            };
            assert(grid_views(grid@)[ci as int] == Some(self.variants@[vi as int]@));
            lemma_single_seed_consistent(grid_views(grid@), self.size as int, ci as int);
        }
        grid
    }

    /// Pick the position of a free-neighbor entry of lowest domain
    /// weight-sum, breaking ties at random over all entries at the minimum.
    #[verifier::loop_isolation(false)]
    fn select_lowest_entropy(
        &self,
        rng: &mut ThreadRng,
        free: &Vec<(usize, Vec<usize>)>,
        Ghost(gv): Ghost<Seq<Option<TileView>>>,
    ) -> (mi: usize)
        requires
            self.wf_base(),
            free@.len() >= 1,
            forall|k: int|
                0 <= k < free@.len() ==> self.domain_seq_ok(
                    gv,
                    (#[trigger] free@[k]).0 as int,
                    free@[k].1@,
                ),
        ensures
            mi < free@.len(),
            forall|k: int|
                0 <= k < free@.len() ==> weight_total(
                    domain_weights(self.variants@, free@[mi as int].1@),
                ) <= weight_total(domain_weights(self.variants@, (#[trigger] free@[k]).1@)),
    {
        let mut sums: Vec<u64> = Vec::new();
        let mut m: usize = 0;
        while m < free.len()
            invariant
                m <= free@.len(),
                sums@.len() == m,
                forall|k: int| 0 <= k < m ==> #[trigger] sums@[k] == weight_total(
                    domain_weights(self.variants@, free@[k].1@)),
            decreases free.len() - m,
        {
            proof {
                lemma_ascending_bounded(free@[m as int].1@, self.variants@.len() as int);
            }
            let w = self.sum_weights(&free[m].1);
            sums.push(w);
            m += 1;
        }

        let mut min: u64 = sums[0];
        let mut m2: usize = 1;
        while m2 < sums.len()
            invariant
                1 <= m2 <= sums@.len(),
                exists|k: int| 0 <= k < m2 && #[trigger] sums@[k] == min,
                forall|k: int| 0 <= k < m2 ==> min <= #[trigger] sums@[k],
            decreases sums.len() - m2,
        {
            if sums[m2] < min {
                min = sums[m2];
            }
            m2 += 1;
        }

        let mut cands: Vec<usize> = Vec::new();
        let mut m3: usize = 0;
        while m3 < sums.len()
            invariant
                m3 <= sums@.len(),
                forall|k: int| 0 <= k < cands@.len() ==> #[trigger] cands@[k] < free@.len()
                    && sums@[cands@[k] as int] == min,
                forall|k: int| 0 <= k < m3 && #[trigger] sums@[k] == min
                    ==> cands@.contains(k as usize),
            decreases sums.len() - m3,
        {
            let ghost prevc = cands@;
            if sums[m3] == min {
                cands.push(m3);
                proof {
                    assert(cands@[cands@.len() - 1] == m3);
                }
            }
            proof {
                assert forall|k: int| 0 <= k < m3 + 1 && #[trigger] sums@[k] == min
                    implies cands@.contains(k as usize) by {
                    if k < m3 {
                        let c = choose|c: int| 0 <= c < prevc.len() && prevc[c] == k as usize;
                        assert(cands@[c] == k as usize);
                    } else {
                        assert(cands@[cands@.len() - 1] == m3);
                    }
                };
            }
            m3 += 1;
        }
        proof {
            let k = choose|k: int| 0 <= k < sums@.len() && #[trigger] sums@[k] == min;
            assert(cands@.contains(k as usize));
        }

        let pick = rand_below(rng, cands.len());
        let mi = cands[pick];
        proof {
            assert(sums@[mi as int] == min);
            assert forall|k: int| 0 <= k < free@.len() implies weight_total(
                domain_weights(self.variants@, free@[mi as int].1@)) <= weight_total(
                domain_weights(self.variants@, (#[trigger] free@[k]).1@)) by {
                assert(sums@[k] == weight_total(domain_weights(self.variants@, free@[k].1@)));
                assert(min <= sums@[k]);
                assert(sums@[mi as int] == weight_total(
                    domain_weights(self.variants@, free@[mi as int].1@)));
            };
        }
        mi
    }

    /// One full collapse attempt.  Starting from a fresh seeded grid, the
    /// cell of lowest weighted entropy among the free neighbors of the
    /// collapsed region is collapsed to a weighted random variant of its
    /// domain, over and over, until the grid is full (success) or a domain
    /// comes up empty or weightless (contradiction).  Snapshots of every
    /// intermediate grid are pushed when `step_by_step` is set; the full
    /// final grid is always pushed on success.
    #[verifier::loop_isolation(false)]
    pub fn generate_map(&mut self, rng: &mut ThreadRng, step_by_step: bool) -> (ok: bool)
        requires
            old(self).wf_base(),
            old(self).variants@.len() >= 1,
        ensures
            final(self).size == old(self).size,
            final(self).variants == old(self).variants,
            old(self).history@.len() <= final(self).history@.len(),
            final(self).history@.take(old(self).history@.len() as int) == old(self).history@,
            forall|k: int|
                old(self).history@.len() <= k < final(self).history@.len()
                    ==> final(self).snapshot_ok(#[trigger] final(self).history@[k]@),
            ok ==> final(self).history@.len() > old(self).history@.len() && (forall|c: int|
                0 <= c < final(self).history@.last()@.len()
                    ==> final(self).history@.last()@[c] is Some),
            ok && !step_by_step ==> final(self).history@.len() == old(self).history@.len() + 1,
            !step_by_step ==> final(self).history@.len() <= old(self).history@.len() + 1,
            forall|k: int|
                old(self).history@.len() <= k < final(self).history@.len()
                    ==> final(self).cells_from_catalog(#[trigger] final(self).history@[k]@),
            old(self).size == 1 ==> ok,
            !ok && !step_by_step ==> final(self).history == old(self).history,
            !ok && step_by_step ==> exists|c: int|
                #![trigger final(self).history@.last()@[c]]
                0 <= c < final(self).history@.last()@.len()
                    && final(self).history@.last()@[c] is None,
            step_by_step ==> final(self).history@.len() > old(self).history@.len()
                && seeded_grid(
                final(self).variants@,
                final(self).history@[old(self).history@.len() as int]@,
            ),
            step_by_step ==> forall|k: int|
                old(self).history@.len() <= k < final(self).history@.len() - 1
                    ==> collapse_step(
                    final(self).variants@,
                    final(self).size as int,
                    (#[trigger] final(self).history@[k])@,
                    final(self).history@[k + 1]@,
                ) || (ok && k == final(self).history@.len() - 2 && final(self).history@[k
                    + 1]@ == final(self).history@[k]@),
        decreases
    {
        let ghost s = self.size as int;
        let ghost n0 = self.size * self.size;
        let ghost h0 = self.history@;
        let mut grid = self.clear(rng);
        proof {
            let (ci, vi) = choose|ci: int, vi: int|
                #![trigger grid_views(grid@)[ci], self.variants@[vi]]
                0 <= ci < grid@.len() && 0 <= vi < self.variants@.len() && grid_views(
                    grid@)[ci] == Some(self.variants@[vi]@) && (forall|k: int|
                    0 <= k < grid@.len() && k != ci ==> grid_views(grid@)[k] is None);
            assert forall|c: int| 0 <= c < grid@.len()
                && (#[trigger] grid_views(grid@)[c]) is Some implies exists|vj: int|
                0 <= vj < self.variants@.len() && grid_views(grid@)[c]->0 == (
                #[trigger] self.variants@[vj])@ by {
                assert(c == ci);
                assert(grid_views(grid@)[c]->0 == self.variants@[vi]@);
            };
            assert(catalog_cells(self.variants@, grid_views(grid@)));
        }
        let ghost vs0 = self.variants@;
        if step_by_step {
            let snap = Snapshot { grid: clone_grid(&grid) };
            self.history.push(snap);
            proof {
                assert(self.history@.take(h0.len() as int) =~= h0);
                assert(self.history@.last()@ == grid_views(grid@));
                assert forall|k: int| h0.len() <= k < self.history@.len()
                    implies catalog_cells(vs0, #[trigger] self.history@[k]@) by {
                    assert(k == self.history@.len() - 1);
                };
            }
        }
        loop
            invariant
                self.wf_base(),
                self.variants@.len() >= 1,
                self.size == old(self).size,
                self.variants == old(self).variants,
                grid@.len() == self.size * self.size,
                consistent(grid_views(grid@), self.size as int),
                h0 == old(self).history@,
                h0.len() <= self.history@.len(),
                self.history@.take(h0.len() as int) == h0,
                forall|k: int|
                    h0.len() <= k < self.history@.len()
                        ==> self.snapshot_ok(#[trigger] self.history@[k]@),
                vs0 == self.variants@,
                forall|k: int|
                    h0.len() <= k < self.history@.len()
                        ==> catalog_cells(vs0, #[trigger] self.history@[k]@),
                catalog_cells(vs0, grid_views(grid@)),
                exists|c: int|
                    0 <= c < grid@.len() && (#[trigger] grid_views(grid@)[c]) is Some,
                !step_by_step ==> self.history == old(self).history,
                step_by_step ==> self.history@.len() > h0.len() && self.history@.last()@
                    == grid_views(grid@),
                step_by_step ==> seeded_grid(vs0, self.history@[h0.len() as int]@),
                step_by_step ==> forall|k: int|
                    h0.len() <= k < self.history@.len() - 1 ==> collapse_step(
                        vs0, s, (#[trigger] self.history@[k])@, self.history@[k + 1]@),
            decreases count_free(grid_views(grid@)),
        {
            if grid_full(&grid) {
                let ghost gv = grid_views(grid@);
                let snap = Snapshot { grid };
                self.history.push(snap);
                proof {
                    assert(self.history@.take(h0.len() as int) =~= h0);
                    assert(self.history@.last()@ == gv);
                    assert forall|k: int| h0.len() <= k < self.history@.len()
                        implies catalog_cells(vs0, #[trigger] self.history@[k]@) by {
                        if k < self.history@.len() - 1 {
                        } else {
                            assert(self.history@[k]@ == gv);
                        }
                    };
                    if step_by_step {
                        let prevh = self.history@.drop_last();
                        assert(self.history@[h0.len() as int] == prevh[h0.len() as int]);
                        assert forall|k: int| h0.len() <= k < self.history@.len() - 1
                            implies collapse_step(
                                vs0, s, (#[trigger] self.history@[k])@,
                                self.history@[k + 1]@) || (k == self.history@.len() - 2
                                && self.history@[k + 1]@ == self.history@[k]@) by {
                            assert(self.history@[k] == prevh[k]);
                            if k < self.history@.len() - 2 {
                                assert(self.history@[k + 1] == prevh[k + 1]);
                            } else {
                                assert(self.history@[k]@ == prevh.last()@);
                                assert(self.history@[k + 1]@ == gv);
                            }
                        };
                    }
                }
                return true;
            }
            proof {
                // the grid is not yet full here
                let cn = choose|cn: int|
                    0 <= cn < grid@.len() && !(grid_views(grid@)[cn] is Some);
                if old(self).size == 1 {
                    let cs = choose|cs: int|
                        0 <= cs < grid@.len() && (#[trigger] grid_views(grid@)[cs]) is Some;
                    assert(cs == 0 && cn == 0);
                    assert(false);
                }
            }
            let free = self.get_free_neighbors(&grid);
            if free.len() == 0 {
                return false;
            }
            let ghost gv = grid_views(grid@);

            let mi = self.select_lowest_entropy(rng, &free, Ghost(gv));
            let index = free[mi].0;
            if free[mi].1.len() == 0 {
                return false;
            }
            proof {
                lemma_ascending_bounded(free@[mi as int].1@, self.variants@.len() as int);
            }
            let total = self.sum_weights(&free[mi].1);
            if total == 0 {
                return false;
            }
            let t = self.weighted_variant(rng, &free[mi].1);
            let ghost dom = free@[mi as int].1@;
            let ghost dk = choose|k: int|
                0 <= k < dom.len() && t@ == self.variants@[#[trigger] dom[k] as int]@
                    && self.variants@[dom[k] as int]@.weight > 0;
            let ghost chosen_vi = dom[dk] as int;
            proof {
                assert(t@ == self.variants@[chosen_vi]@);
                assert(variant_ok_at(gv, s, index as int, t@));
                lemma_place_keeps_consistent(gv, s, index as int, t@);
                lemma_count_free_update(gv, index as int, t@);
                assert(is_free_neighbor(gv, s, index as int));
                assert forall|j: int, di: Seq<usize>, dj: Seq<usize>|
                    is_free_neighbor(gv, s, j) && #[trigger] domain_ok_for(
                        vs0, s, gv, index as int, di) && #[trigger] domain_ok_for(
                        vs0, s, gv, j, dj) implies weight_total(domain_weights(vs0, di))
                    <= weight_total(domain_weights(vs0, dj)) by {
                    lemma_domain_unique(vs0, s, gv, index as int, di, free@[mi as int].1@);
                    let ju = j as usize;
                    assert(ju as int == j);
                    assert(is_free_neighbor(gv, s, ju as int));
                    let m = choose|m: int|
                        0 <= m < free@.len() && (#[trigger] free@[m]).0 == ju;
                    lemma_domain_unique(vs0, s, gv, j, dj, free@[m].1@);
                    assert(weight_total(domain_weights(vs0, free@[mi as int].1@))
                        <= weight_total(domain_weights(vs0, free@[m].1@)));
                };
                assert(minimal_entropy_cell(vs0, s, gv, index as int));
            }
            let ghost prev_grid = grid@;
            grid.set(index, Some(t));
            proof {
                assert(grid_views(grid@) =~= grid_views(prev_grid).update(
                    index as int, Some(grid@[index as int]->0@)));
                assert(grid_views(grid@)[index as int] is Some);
                assert forall|c: int| 0 <= c < grid@.len()
                    && (#[trigger] grid_views(grid@)[c]) is Some implies exists|vj: int|
                    0 <= vj < vs0.len() && grid_views(grid@)[c]->0 == (
                    #[trigger] vs0[vj])@ by {
                    if c != index {
                        assert(grid_views(grid@)[c] == grid_views(prev_grid)[c]);
                    } else {
                        assert(grid_views(grid@)[c]->0 == vs0[chosen_vi as int]@);
                    }
                };
                assert(catalog_cells(vs0, grid_views(grid@)));
            }
            if step_by_step {
                let snap = Snapshot { grid: clone_grid(&grid) };
                self.history.push(snap);
                proof {
                    let prevh = self.history@.drop_last();
                    assert(self.history@.take(h0.len() as int) =~= h0);
                    assert(self.history@.last()@ == grid_views(grid@));
                    assert forall|k: int| h0.len() <= k < self.history@.len()
                        implies catalog_cells(vs0, #[trigger] self.history@[k]@) by {
                        assert(k <= self.history@.len() - 1);
                    };
                    assert(prevh.last()@ == gv);
                    assert(grid_views(grid@) =~= gv.update(
                        index as int, Some(vs0[chosen_vi]@)));
                    assert(collapse_step(vs0, s, gv, grid_views(grid@)));
                    assert(self.history@[h0.len() as int] == prevh[h0.len() as int]);
                    assert forall|k: int| h0.len() <= k < self.history@.len() - 1
                        implies collapse_step(
                            vs0, s, (#[trigger] self.history@[k])@,
                            self.history@[k + 1]@) by {
                        assert(self.history@[k] == prevh[k]);
                        if k < self.history@.len() - 2 {
                            assert(self.history@[k + 1] == prevh[k + 1]);
                        } else {
                            assert(self.history@[k]@ == gv);
                            assert(self.history@[k + 1]@ == grid_views(grid@));
                        }
                    };
                }
            }
        }
    }

    /// What a finished build leaves in the history: a full consistent grid,
    /// then the same grid with a validated start-to-goal walk marked on it,
    /// then the marked grid with every cell that cannot walk back to the
    /// start pruned to `None`.
    pub open spec fn solved_history(self) -> bool {
        let h = self.history@;
        let m = h.len();
        let n = self.size * self.size;
        &&& m >= 3
        &&& {
            let solved = h[m - 3]@;
            let marked = h[m - 2]@;
            let pruned = h[m - 1]@;
            let tiles = dense_tiles(solved);
            &&& solved.len() == n
            &&& marked.len() == n
            &&& pruned.len() == n
            &&& forall|c: int| 0 <= c < solved.len() ==> #[trigger] solved[c] is Some
            &&& exists|p: Seq<usize>|
                #![trigger is_path(tiles, self.size as int, p, 0, n - 1)]
                is_path(tiles, self.size as int, p, 0, n - 1) && (forall|c: int|
                    0 <= c < marked.len() ==> #[trigger] marked[c] == (if on_path(p, c) {
                        Some(mark_view(solved[c]->0))
                    } else {
                        solved[c]
                    }))
            &&& forall|c: int|
                0 <= c < pruned.len() ==> #[trigger] pruned[c] == (if reachable(
                    tiles,
                    self.size as int,
                    c,
                    0,
                ) {
                    marked[c]
                } else {
                    None
                })
        }
    }

    /// After pruning, every remaining cell can walk back to the start.
    pub proof fn lemma_pruned_reachable(self)
        requires
            self.solved_history(),
        ensures
            ({
                let h = self.history@;
                let solved = h[h.len() - 3]@;
                let pruned = h[h.len() - 1]@;
                forall|c: int| 0 <= c < pruned.len() && #[trigger] pruned[c] is Some
                    ==> reachable(dense_tiles(solved), self.size as int, c, 0)
            }),
    {
    }

    /// Record a validated solution: the walk is marked on a copy of the
    /// solved grid in one new snapshot, then every cell that cannot walk
    /// back to the start is pruned to `None` in a final snapshot.
    #[verifier::rlimit(100)]
    fn record_solution(&mut self, walk: Vec<usize>)
        requires
            old(self).wf_base(),
            old(self).history@.len() >= 1,
            forall|k: int|
                0 <= k < old(self).history@.len() ==> old(self).snapshot_ok(
                    #[trigger] old(self).history@[k]@),
            forall|c: int|
                0 <= c < old(self).history@.last()@.len()
                    ==> #[trigger] old(self).history@.last()@[c] is Some,
            is_path(
                dense_tiles(old(self).history@.last()@),
                old(self).size as int,
                walk@,
                0,
                old(self).size * old(self).size - 1,
            ),
            forall|k: int|
                0 <= k < walk@.len() ==> #[trigger] walk@[k] < old(self).size * old(
                    self,
                ).size,
        ensures
            final(self).size == old(self).size,
            final(self).variants == old(self).variants,
            final(self).history@.len() == old(self).history@.len() + 2,
            final(self).history@.take(old(self).history@.len() as int) == old(self).history@,
            forall|k: int|
                0 <= k < final(self).history@.len() ==> final(self).snapshot_ok(
                    #[trigger] final(self).history@[k]@),
            final(self).solved_history(),
    {
        let ghost s = self.size as int;
        let ghost n = self.size * self.size;
        let last = self.history.len() - 1;
        let ghost solved = self.history@[last as int]@;
        let ghost tiles = dense_tiles(solved);
        let mut snap = clone_grid(&self.history[last].grid);
        let pf_grid = clone_grid(&snap);
        proof {
            assert forall|i: int| 0 <= i < pf_grid@.len() implies pf_grid@[i] is Some by {
                assert(grid_views(pf_grid@)[i] == solved[i]);
            };
        }
        let pf = Pathfinding::new(self.size, pf_grid);
        proof {
            assert(pf.tiles() =~= tiles);
        }

        mark_walk(&mut snap, &walk);
        proof {
            assert forall|c: int| 0 <= c < n && #[trigger] grid_views(snap@)[c] is Some
                implies solved[c] is Some && same_core(
                    solved[c]->0, grid_views(snap@)[c]->0) by {};
            lemma_same_core_consistent(solved, grid_views(snap@), s);
        }
        let ghost marked = grid_views(snap@);
        let marked_snap = Snapshot { grid: clone_grid(&snap) };
        self.history.push(marked_snap);

        prune_unreachable(&mut snap, &pf, self.size);
        proof {
            assert forall|c: int| 0 <= c < n && #[trigger] grid_views(snap@)[c] is Some
                implies marked[c] is Some && same_core(
                    marked[c]->0, grid_views(snap@)[c]->0) by {};
            lemma_same_core_consistent(marked, grid_views(snap@), s);
            assert forall|c: int| 0 <= c < n
                implies #[trigger] grid_views(snap@)[c] == (if reachable(tiles, s, c, 0) {
                    marked[c]
                } else {
                    None::<TileView>
                }) by {
                assert(reachable(pf.tiles(), s, c, 0) == reachable(tiles, s, c, 0));
            };
        }
        let pruned_snap = Snapshot { grid: snap };
        self.history.push(pruned_snap);
        proof {
            let h = self.history@;
            let m = h.len();
            assert(h.take(old(self).history@.len() as int) =~= old(self).history@);
            assert(h[m - 3]@ == solved);
            assert(h[m - 2]@ == marked);
            assert(m >= 3);
            assert(h[m - 3]@.len() == self.size * self.size);
            assert(h[m - 2]@.len() == self.size * self.size);
            assert(h[m - 1]@.len() == self.size * self.size);
            assert(forall|c: int| 0 <= c < h[m - 3]@.len()
                ==> #[trigger] h[m - 3]@[c] is Some);
            assert(forall|c: int| 0 <= c < h[m - 2]@.len()
                ==> #[trigger] h[m - 2]@[c] == (if on_path(walk@, c) {
                    Some(mark_view(h[m - 3]@[c]->0))
                } else {
                    h[m - 3]@[c]
                }));
            assert(is_path(dense_tiles(h[m - 3]@), s, walk@, 0, self.size * self.size - 1));
            assert(forall|c: int| 0 <= c < h[m - 1]@.len()
                ==> #[trigger] h[m - 1]@[c] == (if reachable(
                    dense_tiles(h[m - 3]@), s, c, 0) {
                    h[m - 2]@[c]
                } else {
                    None::<TileView>
                }));
            assert(self.solved_history());
        }
    }

    /// One whole attempt: the history is wiped, one collapse attempt runs,
    /// and on a full grid the validator searches a walk from the start corner
    /// to the goal corner.  When one exists, the walk is marked in a new
    /// snapshot, then every cell that cannot walk back to the start is
    /// pruned in a final snapshot.  Any contradiction or missing walk fails
    /// the attempt.
    #[verifier::rlimit(60)]
    pub fn attempt(&mut self, rng: &mut ThreadRng, log_history: bool) -> (ok: bool)
        requires
            old(self).wf_base(),
            old(self).variants@.len() >= 1,
        ensures
            final(self).size == old(self).size,
            final(self).variants == old(self).variants,
            forall|k: int|
                0 <= k < final(self).history@.len() ==> final(self).snapshot_ok(
                    #[trigger] final(self).history@[k]@),
            !log_history ==> final(self).history@.len() <= 3,
            ok ==> final(self).solved_history(),
            ok ==> final(self).cells_from_catalog(
                final(self).history@[final(self).history@.len() - 3]@),
            old(self).size == 1 ==> ok,
    {
        let ghost s = self.size as int;
        let ghost n = self.size * self.size;
        self.history.clear();
        let ok = self.generate_map(rng, log_history);
        if !ok {
            return false;
        }
        let ghost vs = self.variants@;
        let last = self.history.len() - 1;
        let ghost solved = self.history@[last as int]@;
        let mut pf_grid = clone_grid(&self.history[last].grid);
        proof {
            assert forall|i: int| 0 <= i < pf_grid@.len() implies pf_grid@[i] is Some by {
                assert(grid_views(pf_grid@)[i] == solved[i]);
            };
        }
        let pf = Pathfinding::new(self.size, pf_grid);
        let ghost tiles = dense_tiles(solved);
        proof {
            assert(pf.tiles() =~= tiles);
            assert(1 <= n) by (nonlinear_arith)
                requires 1 <= self.size && n == self.size * self.size;
            assert((self.size - 1) * self.size + (self.size - 1) == n - 1) by (nonlinear_arith)
                requires n == self.size * self.size && 1 <= self.size;
        }
        let goal = self.size - 1;
        match pf.test((0, 0), (goal, goal)) {
            Some(pair) => {
                proof {
                    let si = (0 * pf.size + 0) as int;
                    let gi = (goal * pf.size + goal) as int;
                    assert(pf.is_path(pair.0@, si, gi));
                    assert(si == 0);
                    assert(gi == n - 1);
                    assert(pf.tiles() == tiles && pf.size as int == s);
                    assert(is_path(tiles, s, pair.0@, 0, n - 1));
                    assert(catalog_cells(vs, solved));
                }
                self.record_solution(pair.0);
                proof {
                    let m = self.history@.len();
                    assert(self.history@[m - 3]@ == solved);
                    assert(self.cells_from_catalog(self.history@[m - 3]@));
                }
                true
            },
            None => {
                proof {
                    if old(self).size == 1 {
                        let walk0: Seq<usize> = seq![0usize];
                        assert(walk0[0] == 0usize && walk0.len() == 1);
                        assert(is_path(tiles, s, walk0, 0, 0));
                        assert(reachable(tiles, s, 0, 0));
                        assert(false);
                    }
                }
                false
            },
        }
    }
}

/// Raise the path flag of every cell the walk visits.
#[verifier::loop_isolation(false)]
fn mark_walk(snap: &mut Vec<Option<Tile>>, walk: &Vec<usize>)
    requires
        forall|c: int| 0 <= c < old(snap)@.len() ==> #[trigger] grid_views(old(snap)@)[c] is Some,
        forall|k: int| 0 <= k < walk@.len() ==> #[trigger] walk@[k] < old(snap)@.len(),
    ensures
        final(snap)@.len() == old(snap)@.len(),
        forall|c: int|
            0 <= c < old(snap)@.len() ==> #[trigger] grid_views(final(snap)@)[c] == (if on_path(
                walk@,
                c,
            ) {
                Some(mark_view(grid_views(old(snap)@)[c]->0))
            } else {
                grid_views(old(snap)@)[c]
            }),
{
    let ghost solved = grid_views(snap@);
    let ghost n = snap@.len();
    let mut ti: usize = 0;
    while ti < walk.len()
        invariant
            ti <= walk@.len(),
            snap@.len() == n,
            forall|c: int|
                0 <= c < n ==> #[trigger] grid_views(snap@)[c] == (if on_path(
                    walk@.take(ti as int),
                    c,
                ) {
                    Some(mark_view(solved[c]->0))
                } else {
                    solved[c]
                }),
        decreases walk.len() - ti,
    {
        let idx = walk[ti];
        let ghost before = grid_views(snap@);
        proof {
            assert(solved[idx as int] is Some);
            assert(before[idx as int] is Some);
        }
        match &snap[idx] {
            Some(t) => {
                let nt = mark_tile(t);
                snap.set(idx, Some(nt));
            },
            None => {
                proof {
                    assert(false);
                }
            },
        }
        proof {
            assert forall|c: int| 0 <= c < n
                implies #[trigger] grid_views(snap@)[c] == (if on_path(
                    walk@.take(ti + 1),
                    c,
                ) {
                    Some(mark_view(solved[c]->0))
                } else {
                    solved[c]
                }) by {
                if c == idx {
                    assert(walk@.take(ti + 1)[ti as int] == idx);
                    assert(on_path(walk@.take(ti + 1), c));
                } else {
                    assert(grid_views(snap@)[c] == before[c]);
                    if on_path(walk@.take(ti as int), c) {
                        let k = choose|k: int|
                            #![trigger walk@.take(ti as int)[k]]
                            0 <= k < ti && walk@.take(ti as int)[k] == c;
                        assert(walk@.take(ti + 1)[k] == c);
                    } else if on_path(walk@.take(ti + 1), c) {
                        let k = choose|k: int|
                            #![trigger walk@.take(ti + 1)[k]]
                            0 <= k < ti + 1 && walk@.take(ti + 1)[k] == c;
                        assert(k < ti);
                        assert(walk@.take(ti as int)[k] == c);
                    }
                }
            };
        }
        ti += 1;
    }
    proof {
        assert(walk@.take(walk@.len() as int) =~= walk@);
    }
}

/// Replace every cell that cannot walk back to the start corner with `None`.
#[verifier::loop_isolation(false)]
#[verifier::rlimit(60)]
fn prune_unreachable(snap: &mut Vec<Option<Tile>>, pf: &Pathfinding, size: usize)
    requires
        pf.wf(),
        pf.size == size,
        old(snap)@.len() == size * size,
    ensures
        final(snap)@.len() == old(snap)@.len(),
        forall|c: int|
            0 <= c < old(snap)@.len() ==> #[trigger] grid_views(final(snap)@)[c] == (
            if reachable(pf.tiles(), size as int, c, 0) {
                grid_views(old(snap)@)[c]
            } else {
                None::<TileView>
            }),
{
    let ghost s = size as int;
    let ghost n = size * size;
    let ghost marked = grid_views(snap@);
    let ghost tiles = pf.tiles();
    let mut x: usize = 0;
    while x < size
        invariant
            x <= size,
            snap@.len() == n,
            forall|c: int|
                0 <= c < n ==> #[trigger] grid_views(snap@)[c] == (if prune_visited(
                    s, x as int, 0, c) {
                    if reachable(tiles, s, c, 0) {
                        marked[c]
                    } else {
                        None::<TileView>
                    }
                } else {
                    marked[c]
                }),
        decreases size - x,
    {
        let mut y: usize = 0;
        while y < size
            invariant
                x < size,
                y <= size,
                snap@.len() == n,
                forall|c: int|
                    0 <= c < n ==> #[trigger] grid_views(snap@)[c] == (if prune_visited(
                        s, x as int, y as int, c) {
                        if reachable(tiles, s, c, 0) {
                            marked[c]
                        } else {
                            None::<TileView>
                        }
                    } else {
                        marked[c]
                    }),
            decreases size - y,
        {
            proof {
                assert(size * size <= usize::MAX);
                assert(y * size + x < size * size && y * size == size * y) by (nonlinear_arith)
                    requires
                        0 <= x < size,
                        0 <= y < size,
                ;
            }
            let start = y * size + x;
            proof {
                vstd::arithmetic::div_mod::lemma_fundamental_div_mod_converse(
                    start as int, s, y as int, x as int);
                assert(start % size == x && start / size == y);
            }
            let ghost before = grid_views(snap@);
            match pf.test((x, y), (0, 0)) {
                Some(found) => {
                    proof {
                        let si = (y * pf.size + x) as int;
                        let gi = (0 * pf.size + 0) as int;
                        assert(pf.is_path(found.0@, si, gi));
                        assert(si == start && gi == 0);
                        assert(is_path(tiles, s, found.0@, start as int, 0));
                        assert(reachable(tiles, s, start as int, 0));
                    }
                },
                None => {
                    proof {
                        let si = (y * pf.size + x) as int;
                        let gi = (0 * pf.size + 0) as int;
                        assert(!pf.reachable(si, gi));
                        assert(si == start && gi == 0);
                        assert(!reachable(tiles, s, start as int, 0));
                    }
                    snap.set(start, None);
                },
            }
            proof {
                assert forall|c: int| 0 <= c < n
                    implies #[trigger] grid_views(snap@)[c] == (if prune_visited(
                        s, x as int, y + 1, c) {
                        if reachable(tiles, s, c, 0) {
                            marked[c]
                        } else {
                            None::<TileView>
                        }
                    } else {
                        marked[c]
                    }) by {
                    crate::direction::lemma_grid_coords(c, s);
                    if c != start {
                        assert(grid_views(snap@)[c] == before[c]);
                        if c % s == x && c / s == y {
                            assert(s * y == y * s) by (nonlinear_arith);
                            assert(c == start);
                        }
                        assert(prune_visited(s, x as int, y + 1, c)
                            == prune_visited(s, x as int, y as int, c));
                    }
                };
            }
            y += 1;
        }
        proof {
            assert forall|c: int| 0 <= c < n
                implies prune_visited(s, x as int, size as int, c)
                    == prune_visited(s, x + 1, 0, c) by {
                crate::direction::lemma_grid_coords(c, s);
            };
        }
        x += 1;
    }
    proof {
        assert forall|c: int| 0 <= c < n
            implies prune_visited(s, size as int, 0, c) by {
            crate::direction::lemma_grid_coords(c, s);
        };
    }
}

/// The first catalog variant cut from asset `a`, if any.
#[verifier::loop_isolation(false)]
fn find_asset(variants: &Vec<Tile>, a: usize) -> (r: Option<usize>)
    ensures
        match r {
            Some(i) => i < variants@.len() && first_asset(tile_views(variants@), a) == i,
            None => first_asset(tile_views(variants@), a) == -1,
        },
{
    let ghost vs = tile_views(variants@);
    proof {
        assert(vs.skip(0) =~= vs);
    }
    let mut i: usize = 0;
    while i < variants.len()
        invariant
            i <= vs.len(),
            vs.len() == variants@.len(),
            first_asset(vs, a) == (if first_asset(vs.skip(i as int), a) < 0 {
                -1
            } else {
                first_asset(vs.skip(i as int), a) + i
            }),
        decreases variants.len() - i,
    {
        proof {
            assert(vs.skip(i as int)[0] == vs[i as int]);
        }
        if variants[i].asset == a {
            return Some(i);
        }
        proof {
            assert(vs.skip(i as int).drop_first() =~= vs.skip(i + 1));
        }
        i += 1;
    }
    proof {
        assert(vs.skip(vs.len() as int).len() == 0);
    }
    None
}

/// The catalog variant a surviving seed becomes: its edges read off its
/// pixels, the default weight 1, and no allow-list.
pub open spec fn seed_tile(seed: crate::catalog::VariantSeed) -> TileView {
    TileView {
        edges: crate::tile::edges_of(seed.image),
        asset: seed.asset,
        direction: seed.direction,
        weight: 1,
        path: false,
        neighbors: None,
    }
}

/// The catalog variants of a list of seeds.
pub open spec fn seed_tiles(seeds: Seq<crate::catalog::VariantSeed>) -> Seq<TileView> {
    seeds.map(|i: int, s: crate::catalog::VariantSeed| seed_tile(s))
}

/// What a usable configuration guarantees: a well-formed sample with a
/// catalog small enough for 32-bit weights, and at least one source of
/// variants.
pub open spec fn config_ok(c: Config) -> bool {
    match c.image {
        Some(pair) => {
            &&& pair.0.wf()
            &&& 1 <= pair.1
            &&& 4 * ((pair.0.width as int / pair.1 as int) * (pair.0.height as int
                / pair.1 as int)) + c.variants@.len() <= u32::MAX
            &&& (c.variants@.len() >= 1 || (pair.0.width >= pair.1 && pair.0.height >= pair.1))
        },
        None => 1 <= c.variants@.len() <= u32::MAX,
    }
}

impl TileMap {
    /// The catalog described by the configuration: the deduped, sorted image
    /// variants (weight 1 each), with every explicit entry applied in order,
    /// overriding the weight and allow-list of its asset's first variant or
    /// appending a fresh variant with empty edges.
    pub open spec fn catalog_of(self, c: Config) -> bool {
        match c.image {
            Some(pair) => exists|seeds: Seq<crate::catalog::VariantSeed>|
                #![trigger seed_tiles(seeds)]
                crate::catalog::seeds_sorted(seeds) && (forall|m: int|
                    0 <= m < seeds.len() ==> crate::catalog::seed_ok(
                        pair.0,
                        pair.1 as int,
                        #[trigger] seeds[m],
                    )) && (forall|cx2: int, cy2: int|
                    0 <= cx2 < pair.0.width as int / pair.1 as int && 0 <= cy2
                        < pair.0.height as int / pair.1 as int
                        ==> #[trigger] crate::catalog::cell_covered(
                        pair.0,
                        pair.1 as int,
                        seeds,
                        cx2,
                        cy2,
                    )) && tile_views(self.variants@) == apply_entries(
                    seed_tiles(seeds),
                    entry_views(c.variants@),
                ),
            None => tile_views(self.variants@) == apply_entries(
                Seq::empty(),
                entry_views(c.variants@),
            ),
        }
    }

    /// Build the variant catalog from the configuration, replacing whatever
    /// catalog was loaded before.  The map's history is untouched.
    #[verifier::loop_isolation(false)]
    pub fn load_config(&mut self, config: &Config)
        requires
            1 <= old(self).size,
            old(self).size * old(self).size <= usize::MAX,
            config_ok(*config),
        ensures
            final(self).size == old(self).size,
            final(self).history == old(self).history,
            final(self).catalog_of(*config),
            1 <= final(self).variants@.len() <= u32::MAX,
            final(self).wf_base(),
    {
        self.variants.clear();
        let ghost mut base: Seq<TileView> = Seq::empty();
        match &config.image {
            Some(pair) => {
                let seeds = crate::catalog::image_variant_seeds(&pair.0, pair.1);
                proof {
                    base = seed_tiles(seeds@);
                    if config.variants@.len() == 0 {
                        let ghost k = pair.1 as int;
                        vstd::arithmetic::div_mod::lemma_fundamental_div_mod(
                            pair.0.width as int, k);
                        vstd::arithmetic::div_mod::lemma_mod_pos_bound(pair.0.width as int, k);
                        vstd::arithmetic::div_mod::lemma_fundamental_div_mod(
                            pair.0.height as int, k);
                        vstd::arithmetic::div_mod::lemma_mod_pos_bound(pair.0.height as int, k);
                        let qw = pair.0.width as int / k;
                        let rw = pair.0.width as int % k;
                        let qh = pair.0.height as int / k;
                        let rh = pair.0.height as int % k;
                        assert(qw >= 1) by (nonlinear_arith)
                            requires
                                1 <= k,
                                pair.0.width as int == k * qw + rw,
                                0 <= rw < k,
                                k <= pair.0.width as int,
                        ;
                        assert(qh >= 1) by (nonlinear_arith)
                            requires
                                1 <= k,
                                pair.0.height as int == k * qh + rh,
                                0 <= rh < k,
                                k <= pair.0.height as int,
                        ;
                        assert(crate::catalog::cell_covered(pair.0, k, seeds@, 0, 0));
                        assert(crate::catalog::pixels_present(
                            seeds@,
                            crate::catalog::rot_pixels(
                                crate::catalog::cell_pixels(pair.0, k, 0, 0),
                                k,
                                0,
                            ),
                        ));
                        assert(seeds@.len() >= 1);
                    }
                }
                let mut m: usize = 0;
                while m < seeds.len()
                    invariant
                        m <= seeds@.len(),
                        self.size == old(self).size,
                        self.history == old(self).history,
                        self.variants@.len() == m,
                        tile_views(self.variants@) =~= seed_tiles(seeds@).take(m as int),
                        forall|j: int| 0 <= j < seeds@.len() ==> crate::catalog::seed_ok(
                            pair.0, pair.1 as int, #[trigger] seeds@[j]),
                    decreases seeds.len() - m,
                {
                    let t = Tile {
                        edges: crate::tile::get_edges(&seeds[m].image),
                        asset: seeds[m].asset,
                        direction: seeds[m].direction,
                        weight: 1,
                        path: false,
                        neighbors: None,
                    };
                    proof {
                        assert(t@ =~= seed_tile(seeds@[m as int]));
                    }
                    self.variants.push(t);
                    proof {
                        assert(tile_views(self.variants@) =~= seed_tiles(seeds@).take(m + 1));
                    }
                    m += 1;
                }
                proof {
                    assert(seed_tiles(seeds@).take(seeds@.len() as int) =~= seed_tiles(seeds@));
                }
            },
            None => {},
        }
        proof {
            assert(tile_views(self.variants@) == base);
            assert(base.len() <= u32::MAX - config.variants@.len());
        }

        let mut j: usize = 0;
        while j < config.variants.len()
            invariant
                j <= config.variants@.len(),
                self.size == old(self).size,
                self.history == old(self).history,
                tile_views(self.variants@) =~= apply_entries(
                    base, entry_views(config.variants@).take(j as int)),
                self.variants@.len() <= base.len() + j,
            decreases config.variants.len() - j,
        {
            let ghost cur = tile_views(self.variants@);
            let ghost es = entry_views(config.variants@);
            proof {
                assert(es.take(j + 1).drop_last() =~= es.take(j as int));
                assert(es.take(j + 1).last() == config.variants@[j as int]@);
            }
            let e = &config.variants[j];
            let neighbors = match &e.neighbors {
                Some(v) => Some(crate::tile::copy_indices(v)),
                None => None,
            };
            match find_asset(&self.variants, e.index) {
                Some(fi) => {
                    let old_t = &self.variants[fi];
                    let nt = Tile {
                        edges: old_t.edges.clone(),
                        asset: old_t.asset,
                        direction: old_t.direction,
                        weight: e.weight,
                        path: old_t.path,
                        neighbors,
                    };
                    proof {
                        assert(nt@ =~= TileView {
                            weight: e@.weight,
                            neighbors: e@.neighbors,
                            ..cur[fi as int]
                        });
                    }
                    self.variants.set(fi, nt);
                    proof {
                        assert(first_asset(cur, e@.index) == fi);
                        assert(nt@ == TileView {
                            weight: e@.weight,
                            neighbors: e@.neighbors,
                            ..cur[fi as int]
                        });
                        assert forall|m2: int| 0 <= m2 < cur.len()
                            implies tile_views(self.variants@)[m2] == apply_entry(
                                cur, e@)[m2] by {
                            if m2 != fi {
                                assert(tile_views(self.variants@)[m2] == cur[m2]);
                            }
                        };
                        assert(tile_views(self.variants@) =~= apply_entry(cur, e@));
                    }
                },
                None => {
                    let nt = Tile {
                        edges: Edges::empty(),
                        asset: e.index,
                        direction: Direction::North,
                        weight: e.weight,
                        path: false,
                        neighbors,
                    };
                    proof {
                        assert(first_asset(cur, e@.index) == -1);
                    }
                    self.variants.push(nt);
                    proof {
                        assert(nt@ =~= TileView {
                            edges: EdgesView {
                                north: Seq::empty(),
                                east: Seq::empty(),
                                south: Seq::empty(),
                                west: Seq::empty(),
                            },
                            asset: e@.index,
                            direction: Direction::North,
                            weight: e@.weight,
                            path: false,
                            neighbors: e@.neighbors,
                        });
                        assert forall|m2: int| 0 <= m2 < cur.len() + 1
                            implies tile_views(self.variants@)[m2] == apply_entry(
                                cur, e@)[m2] by {
                            if m2 < cur.len() {
                                assert(tile_views(self.variants@)[m2] == cur[m2]);
                            }
                        };
                        assert(tile_views(self.variants@) =~= apply_entry(cur, e@));
                    }
                },
            }
            proof {
                assert(tile_views(self.variants@) =~= apply_entries(base, es.take(j + 1)));
            }
            j += 1;
        }
        proof {
            let es = entry_views(config.variants@);
            assert(es.take(es.len() as int) =~= es);
            lemma_apply_entries_len(base, es);
            assert(tile_views(self.variants@).len() == self.variants@.len());
        }
    }

    /// Load the configuration's catalog, then run whole attempts until one
    /// succeeds or the attempt budget runs out.  On success the history ends
    /// with the solved grid, the path-marked grid and the pruned grid.
    pub fn build(
        &mut self,
        rng: &mut ThreadRng,
        config: &Config,
        log_history: bool,
        max_attempts: usize,
    ) -> (ok: bool)
        requires
            1 <= old(self).size,
            old(self).size * old(self).size <= usize::MAX,
            config_ok(*config),
        ensures
            final(self).size == old(self).size,
            final(self).wf_base(),
            forall|k: int|
                0 <= k < final(self).history@.len() ==> final(self).snapshot_ok(
                    #[trigger] final(self).history@[k]@),
            !log_history ==> final(self).history@.len() <= 3,
            ok ==> final(self).solved_history(),
            ok ==> final(self).cells_from_catalog(
                final(self).history@[final(self).history@.len() - 3]@),
            !ok ==> final(self).history@.len() == 0,
            max_attempts >= 1 && old(self).size == 1 ==> ok,
    {
        self.load_config(config);
        let mut tries: usize = 0;
        while tries < max_attempts
            invariant
                self.size == old(self).size,
                self.wf_base(),
                self.variants@.len() >= 1,
                old(self).size == 1 ==> tries == 0,
            decreases max_attempts - tries,
        {
            if self.attempt(rng, log_history) {
                return true;
            }
            tries += 1;
        }
        self.history.clear();
        false
    }
}

} // verus!
