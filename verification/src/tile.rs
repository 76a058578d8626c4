use vstd::prelude::*;

use crate::direction::Direction;
use crate::raster::TileImage;

verus! {

/// The four edge signatures of a tile, one small integer per border pixel.
/// A zero entry means "no connection crosses the border at this pixel".
#[derive(Debug, Hash)]
pub struct Edges {
    pub north: Vec<u8>,
    pub east: Vec<u8>,
    pub south: Vec<u8>,
    pub west: Vec<u8>,
}

/// The mathematical value of an [`Edges`]: four pixel sequences.
#[verifier::ext_equal]
pub ghost struct EdgesView {
    pub north: Seq<u8>,
    pub east: Seq<u8>,
    pub south: Seq<u8>,
    pub west: Seq<u8>,
}

impl View for Edges {
    type V = EdgesView;

    open spec fn view(&self) -> EdgesView {
        EdgesView {
            north: self.north@,
            east: self.east@,
            south: self.south@,
            west: self.west@,
        }
    }
}

/// The signature of one side.
pub open spec fn edge_seq(e: EdgesView, direction: Direction) -> Seq<u8> {
    match direction {
        Direction::North => e.north,
        Direction::East => e.east,
        Direction::South => e.south,
        Direction::West => e.west,
    }
}

/// A signature with no connection anywhere.
pub open spec fn edge_clear(s: Seq<u8>) -> bool {
    forall|k: int| 0 <= k < s.len() ==> s[k] == 0
}

/// The edge permutation of a clockwise quarter turn: the previous west
/// signature becomes the new north, and the rest shift along.
pub open spec fn rotate90_edges_spec(e: EdgesView) -> EdgesView {
    EdgesView { north: e.west, east: e.north, south: e.east, west: e.south }
}

/// Rotating a tile's edges four quarter turns is the identity.
pub proof fn lemma_rotate90_edges_four(e: EdgesView)
    ensures
        rotate90_edges_spec(rotate90_edges_spec(rotate90_edges_spec(rotate90_edges_spec(e)))) == e,
{
    assert(rotate90_edges_spec(rotate90_edges_spec(rotate90_edges_spec(rotate90_edges_spec(e))))
        =~= e);
}

/// One tile variant of the catalog: its four edge signatures, the index of the
/// source asset it was cut from, the rotation it carries, a sampling weight,
/// whether it lies on the validated path, and an optional allow-list of asset
/// indices that may sit next to it regardless of edge matching.
#[derive(Debug)]
pub struct Tile {
    pub edges: Edges,
    pub asset: usize,
    pub direction: Direction,
    pub weight: u32,
    pub path: bool,
    pub neighbors: Option<Vec<usize>>,
}

/// The mathematical value of a [`Tile`].
#[verifier::ext_equal]
pub ghost struct TileView {
    pub edges: EdgesView,
    pub asset: usize,
    pub direction: Direction,
    pub weight: u32,
    pub path: bool,
    pub neighbors: Option<Seq<usize>>,
}

impl View for Tile {
    type V = TileView;

    open spec fn view(&self) -> TileView {
        TileView {
            edges: self.edges@,
            asset: self.asset,
            direction: self.direction,
            weight: self.weight,
            path: self.path,
            neighbors: match self.neighbors {
                Some(ref v) => Some(v@),
                None => None,
            },
        }
    }
}

/// The mathematical values of a sequence of tiles.
pub open spec fn tile_views(s: Seq<Tile>) -> Seq<TileView> {
    s.map(|i: int, t: Tile| t@)
}

/// The mathematical values of a grid of optional tiles.
pub open spec fn grid_views(s: Seq<Option<Tile>>) -> Seq<Option<TileView>> {
    s.map(
        |i: int, o: Option<Tile>|
            match o {
                Some(t) => Some(t@),
                None => None,
            },
    )
}

/// An element-for-element copy of a byte vector.
pub fn copy_bytes(v: &Vec<u8>) -> (r: Vec<u8>)
    ensures
        r@ == v@,
{
    let mut r: Vec<u8> = Vec::new();
    let mut i: usize = 0;
    while i < v.len()
        invariant
            i <= v.len(),
            r@ =~= v@.take(i as int),
        decreases v.len() - i,
    {
        r.push(v[i]);
        i += 1;
    }
    proof {
        assert(r@ =~= v@);
    }
    r
}

/// An element-for-element copy of an index vector.
pub fn copy_indices(v: &Vec<usize>) -> (r: Vec<usize>)
    ensures
        r@ == v@,
{
    let mut r: Vec<usize> = Vec::new();
    let mut i: usize = 0;
    while i < v.len()
        invariant
            i <= v.len(),
            r@ =~= v@.take(i as int),
        decreases v.len() - i,
    {
        r.push(v[i]);
        i += 1;
    }
    proof {
        assert(r@ =~= v@);
    }
    r
}

/// Whether two signatures are equal element for element.
pub fn bytes_eq(a: &Vec<u8>, b: &Vec<u8>) -> (r: bool)
    ensures
        r == (a@ == b@),
{
    if a.len() != b.len() {
        proof {
            assert(a@.len() != b@.len());
        }
        return false;
    }
    let mut i: usize = 0;
    while i < a.len()
        invariant
            i <= a.len(),
            a@.len() == b@.len(),
            forall|k: int| 0 <= k < i ==> a@[k] == b@[k],
        decreases a.len() - i,
    {
        if a[i] != b[i] {
            return false;
        }
        i += 1;
    }
    proof {
        assert(a@ =~= b@);
    }
    true
}

/// Whether a signature holds any non-zero value, that is, any connection.
pub fn has_connection(v: &Vec<u8>) -> (r: bool)
    ensures
        r == !edge_clear(v@),
{
    let mut i: usize = 0;
    while i < v.len()
        invariant
            i <= v.len(),
            forall|k: int| 0 <= k < i ==> v@[k] == 0,
        decreases v.len() - i,
    {
        if v[i] > 0 {
            return true;
        }
        i += 1;
    }
    false
}

impl Edges {
    /// Edges with the given four signatures.
    pub fn empty() -> (r: Edges)
        ensures
            r@.north.len() == 0,
            r@.east.len() == 0,
            r@.south.len() == 0,
            r@.west.len() == 0,
    {
        Edges { north: Vec::new(), east: Vec::new(), south: Vec::new(), west: Vec::new() }
    }

    /// The edges after a clockwise quarter turn of the tile.
    pub fn rotate90(&self) -> (r: Edges)
        ensures
            r@ == rotate90_edges_spec(self@),
    {
        let r = Edges {
            north: copy_bytes(&self.west),
            east: copy_bytes(&self.north),
            south: copy_bytes(&self.east),
            west: copy_bytes(&self.south),
        };
        proof {
            assert(r@ =~= rotate90_edges_spec(self@));
        }
        r
    }
}

impl Clone for Edges {
    /// A clone keeps every signature.
    fn clone(&self) -> (r: Self)
        ensures
            r@ == self@,
    {
        let r = Edges {
            north: copy_bytes(&self.north),
            east: copy_bytes(&self.east),
            south: copy_bytes(&self.south),
            west: copy_bytes(&self.west),
        };
        proof {
            assert(r@ =~= self@);
        }
        r
    }
}

impl Clone for Tile {
    /// A clone keeps the whole variant.
    fn clone(&self) -> (r: Self)
        ensures
            r@ == self@,
    {
        let neighbors = match &self.neighbors {
            Some(v) => Some(copy_indices(v)),
            None => None,
        };
        let r = Tile {
            edges: self.edges.clone(),
            asset: self.asset,
            direction: self.direction,
            weight: self.weight,
            path: self.path,
            neighbors,
        };
        proof {
            assert(r@ =~= self@);
        }
        r
    }
}

/// The four border signatures of an image: north and south are read with `x`
/// ascending along the top and bottom rows, west and east with `y` ascending
/// along the leftmost and rightmost columns.
pub open spec fn edges_of(image: TileImage) -> EdgesView {
    EdgesView {
        north: Seq::new(image.width as nat, |x: int| image.pixel(x, 0)),
        south: Seq::new(image.width as nat, |x: int| image.pixel(x, image.height - 1)),
        west: Seq::new(image.height as nat, |y: int| image.pixel(0, y)),
        east: Seq::new(image.height as nat, |y: int| image.pixel(image.width - 1, y)),
    }
}

/// The four border signatures, read off the image.
pub fn get_edges(image: &TileImage) -> (r: Edges)
    requires
        image.wf(),
    ensures
        r@ == edges_of(*image),
{
    let w = image.width;
    let h = image.height;
    let mut north: Vec<u8> = Vec::new();
    let mut south: Vec<u8> = Vec::new();
    let mut east: Vec<u8> = Vec::new();
    let mut west: Vec<u8> = Vec::new();

    let mut x: usize = 0;
    while x < w
        invariant
            x <= w,
            image.wf(),
            w == image.width,
            h == image.height,
            north@.len() == x,
            south@.len() == x,
            forall|k: int| 0 <= k < x ==> north@[k] == image.pixel(k, 0),
            forall|k: int| 0 <= k < x ==> south@[k] == image.pixel(k, h - 1),
        decreases w - x,
    {
        north.push(image.at(x, 0));
        south.push(image.at(x, h - 1));
        x += 1;
    }

    let mut y: usize = 0;
    while y < h
        invariant
            y <= h,
            image.wf(),
            w == image.width,
            h == image.height,
            west@.len() == y,
            east@.len() == y,
            forall|k: int| 0 <= k < y ==> west@[k] == image.pixel(0, k),
            forall|k: int| 0 <= k < y ==> east@[k] == image.pixel(w - 1, k),
        decreases h - y,
    {
        west.push(image.at(0, y));
        east.push(image.at(w - 1, y));
        y += 1;
    }

    let r = Edges { north, east, south, west };
    proof {
        assert(r@.north =~= edges_of(*image).north);
        assert(r@.south =~= edges_of(*image).south);
        assert(r@.west =~= edges_of(*image).west);
        assert(r@.east =~= edges_of(*image).east);
        assert(r@ =~= edges_of(*image));
    }
    r
}

} // verus!
