use vstd::prelude::*;

use crate::chunkmap::{ChunkMap, MAPCOUNT, MAPHEIGHT, MAPWIDTH};
use crate::direction::{opposite, Direction};
use crate::tiletype::{flip_x, flip_x_spec, flip_y, flip_y_spec, TileType};

verus! {

/// The `k` x `k` pattern cut from the map at chunk coordinates `(cx, cy)`.
pub open spec fn pattern_at(tiles: Seq<TileType>, w: int, k: int, cx: int, cy: int) -> Seq<
    TileType,
> {
    Seq::new((k * k) as nat, |j: int| tiles[w * (cy * k + j / k) + cx * k + j % k])
}

/// The pattern mirrored across a vertical axis: columns reverse and each
/// symbol is mirrored.
pub open spec fn flip_x_pat(p: Seq<TileType>, k: int) -> Seq<TileType> {
    Seq::new(p.len(), |j: int| flip_x_spec(p[k * (j / k) + (k - 1 - j % k)]))
}

/// The pattern mirrored across a horizontal axis: rows reverse and each
/// symbol is mirrored.
pub open spec fn flip_y_pat(p: Seq<TileType>, k: int) -> Seq<TileType> {
    Seq::new(p.len(), |j: int| flip_y_spec(p[k * (k - 1 - j / k) + j % k]))
}

/// Mirroring a pattern across the vertical axis twice is the identity.
pub proof fn lemma_flip_x_pat_involution(p: Seq<TileType>, k: int)
    requires
        1 <= k,
        p.len() == k * k,
    ensures
        flip_x_pat(flip_x_pat(p, k), k) == p,
{
    let q = flip_x_pat(p, k);
    assert forall|j: int| 0 <= j < p.len() implies flip_x_pat(q, k)[j] == p[j] by {
        vstd::arithmetic::div_mod::lemma_fundamental_div_mod(j, k);
        vstd::arithmetic::div_mod::lemma_mod_pos_bound(j, k);
        let x = j % k;
        let y = j / k;
        assert(0 <= y < k) by (nonlinear_arith)
            requires j == k * y + x && 0 <= x < k && 0 <= j < k * k && 1 <= k;
        let i2 = k * y + (k - 1 - x);
        assert(0 <= i2 < k * k) by (nonlinear_arith)
            requires 0 <= y < k && 0 <= k - 1 - x < k && i2 == k * y + (k - 1 - x) && 1 <= k;
        vstd::arithmetic::div_mod::lemma_fundamental_div_mod_converse(
            i2, k, y, k - 1 - x);
        assert(flip_x_pat(q, k)[j] == flip_x_spec(q[i2]));
        assert(q[i2] == flip_x_spec(p[k * y + x]));
        crate::tiletype::lemma_flip_symbol_laws(p[j]);
    };
    assert(flip_x_pat(q, k) =~= p);
}

/// Mirroring a pattern across the horizontal axis twice is the identity.
pub proof fn lemma_flip_y_pat_involution(p: Seq<TileType>, k: int)
    requires
        1 <= k,
        p.len() == k * k,
    ensures
        flip_y_pat(flip_y_pat(p, k), k) == p,
{
    let q = flip_y_pat(p, k);
    assert forall|j: int| 0 <= j < p.len() implies flip_y_pat(q, k)[j] == p[j] by {
        vstd::arithmetic::div_mod::lemma_fundamental_div_mod(j, k);
        vstd::arithmetic::div_mod::lemma_mod_pos_bound(j, k);
        let x = j % k;
        let y = j / k;
        assert(0 <= y < k) by (nonlinear_arith)
            requires j == k * y + x && 0 <= x < k && 0 <= j < k * k && 1 <= k;
        let i2 = k * (k - 1 - y) + x;
        assert(0 <= i2 < k * k) by (nonlinear_arith)
            requires 0 <= k - 1 - y < k && 0 <= x < k && i2 == k * (k - 1 - y) + x && 1 <= k;
        vstd::arithmetic::div_mod::lemma_fundamental_div_mod_converse(
            i2, k, k - 1 - y, x);
        assert(flip_y_pat(q, k)[j] == flip_y_spec(q[i2]));
        assert(q[i2] == flip_y_spec(p[k * y + x]));
        crate::tiletype::lemma_flip_symbol_laws(p[j]);
    };
    assert(flip_y_pat(q, k) =~= p);
}

/// The two mirrors of a pattern commute.
pub proof fn lemma_flip_pat_commute(p: Seq<TileType>, k: int)
    requires
        1 <= k,
        p.len() == k * k,
    ensures
        flip_x_pat(flip_y_pat(p, k), k) == flip_y_pat(flip_x_pat(p, k), k),
{
    let a = flip_x_pat(flip_y_pat(p, k), k);
    let b = flip_y_pat(flip_x_pat(p, k), k);
    assert forall|j: int| 0 <= j < p.len() implies a[j] == b[j] by {
        vstd::arithmetic::div_mod::lemma_fundamental_div_mod(j, k);
        vstd::arithmetic::div_mod::lemma_mod_pos_bound(j, k);
        let x = j % k;
        let y = j / k;
        assert(0 <= y < k) by (nonlinear_arith)
            requires j == k * y + x && 0 <= x < k && 0 <= j < k * k && 1 <= k;
        let ix = k * y + (k - 1 - x);
        assert(0 <= ix < k * k) by (nonlinear_arith)
            requires 0 <= y < k && 0 <= k - 1 - x < k && ix == k * y + (k - 1 - x) && 1 <= k;
        vstd::arithmetic::div_mod::lemma_fundamental_div_mod_converse(
            ix, k, y, k - 1 - x);
        let iy = k * (k - 1 - y) + x;
        assert(0 <= iy < k * k) by (nonlinear_arith)
            requires 0 <= k - 1 - y < k && 0 <= x < k && iy == k * (k - 1 - y) + x && 1 <= k;
        vstd::arithmetic::div_mod::lemma_fundamental_div_mod_converse(
            iy, k, k - 1 - y, x);
        let ixy = k * (k - 1 - y) + (k - 1 - x);
        assert(0 <= ixy < k * k) by (nonlinear_arith)
            requires 0 <= k - 1 - y < k && 0 <= k - 1 - x < k
                && ixy == k * (k - 1 - y) + (k - 1 - x) && 1 <= k;
        vstd::arithmetic::div_mod::lemma_fundamental_div_mod_converse(
            ixy, k, k - 1 - y, k - 1 - x);
        assert(a[j] == flip_x_spec(flip_y_pat(p, k)[ix]));
        assert(flip_y_pat(p, k)[ix] == flip_y_spec(p[ixy]));
        assert(b[j] == flip_y_spec(flip_x_pat(p, k)[iy]));
        assert(flip_x_pat(p, k)[iy] == flip_x_spec(p[ixy]));
        crate::tiletype::lemma_flip_symbol_laws(p[ixy]);
    };
    assert(a =~= b);
}

/// One `k` x `k` chunk of the map, read row by row.
#[verifier::loop_isolation(false)]
fn extract_chunk(map: &ChunkMap, k: usize, cx: usize, cy: usize) -> (r: Vec<TileType>)
    requires
        map.wf(),
        1 <= k,
        (cx + 1) * k <= map.width,
        (cy + 1) * k <= map.height,
    ensures
        r@ == pattern_at(map.tiles@, map.width as int, k as int, cx as int, cy as int),
{
    let n = map.tiles.len();
    let ghost w = map.width as int;
    let ghost ki = k as int;
    let ghost spec_out = pattern_at(map.tiles@, w, ki, cx as int, cy as int);
    let mut r: Vec<TileType> = Vec::new();
    let mut ly: usize = 0;
    while ly < k
        invariant
            ly <= k,
            r@.len() == k * ly,
            forall|j: int| 0 <= j < r@.len() ==> #[trigger] r@[j] == spec_out[j],
        decreases k - ly,
    {
        let mut lx: usize = 0;
        while lx < k
            invariant
                ly < k,
                lx <= k,
                r@.len() == k * ly + lx,
                forall|j: int| 0 <= j < r@.len() ==> #[trigger] r@[j] == spec_out[j],
            decreases k - lx,
        {
            proof {
                assert(k * ly + lx < k * k && (cy * k + ly) * w + cx * k + lx < w
                    * map.height as int && w * (cy * k + ly) == (cy * k + ly) * w
                    && cy * k + ly < map.height && cx * k + lx < w) by (nonlinear_arith)
                    requires
                        0 <= lx < k,
                        0 <= ly < k,
                        1 <= k,
                        1 <= w,
                        (cx + 1) * k <= w,
                        (cy + 1) * k <= map.height as int,
                ;
                vstd::arithmetic::div_mod::lemma_fundamental_div_mod_converse(
                    k * ly + lx, k as int, ly as int, lx as int);
            }
            let idx = (cy * k + ly) * (map.width as usize) + cx * k + lx;
            let v = map.tiles[idx];
            r.push(v);
            proof {
                let ghost j = r@.len() - 1;
                assert(r@[j] == spec_out[j]);
            }
            lx += 1;
        }
        proof {
            assert(k * ly + k == k * (ly + 1)) by (nonlinear_arith);
        }
        ly += 1;
    }
    proof {
        assert(r@ =~= spec_out);
    }
    r
}

/// The pattern mirrored across a vertical axis.
#[verifier::loop_isolation(false)]
pub fn flip_pattern_x(p: &Vec<TileType>, k: usize) -> (r: Vec<TileType>)
    requires
        1 <= k,
        p@.len() == k * k,
    ensures
        r@ == flip_x_pat(p@, k as int),
{
    let mut r: Vec<TileType> = Vec::new();
    let mut j: usize = 0;
    while j < p.len()
        invariant
            j <= p@.len(),
            r@.len() == j,
            forall|m: int| 0 <= m < j ==> #[trigger] r@[m] == flip_x_pat(p@, k as int)[m],
        decreases p.len() - j,
    {
        let y = j / k;
        let x = j % k;
        proof {
            vstd::arithmetic::div_mod::lemma_fundamental_div_mod(j as int, k as int);
            vstd::arithmetic::div_mod::lemma_mod_pos_bound(j as int, k as int);
            assert(0 <= y < k && y * k + (k - 1 - x) < k * k && k * (j as int / k as int) == (
            j as int / k as int) * k) by (nonlinear_arith)
                requires
                    j == k * y + x,
                    0 <= x < k,
                    0 <= j < k * k,
                    1 <= k,
            ;
        }
        let v = flip_x(p[y * k + (k - 1 - x)]);
        r.push(v);
        j += 1;
    }
    proof {
        assert(r@ =~= flip_x_pat(p@, k as int));
    }
    r
}

/// The pattern mirrored across a horizontal axis.
#[verifier::loop_isolation(false)]
pub fn flip_pattern_y(p: &Vec<TileType>, k: usize) -> (r: Vec<TileType>)
    requires
        1 <= k,
        p@.len() == k * k,
    ensures
        r@ == flip_y_pat(p@, k as int),
{
    let mut r: Vec<TileType> = Vec::new();
    let mut j: usize = 0;
    while j < p.len()
        invariant
            j <= p@.len(),
            r@.len() == j,
            forall|m: int| 0 <= m < j ==> #[trigger] r@[m] == flip_y_pat(p@, k as int)[m],
        decreases p.len() - j,
    {
        let y = j / k;
        let x = j % k;
        proof {
            vstd::arithmetic::div_mod::lemma_fundamental_div_mod(j as int, k as int);
            vstd::arithmetic::div_mod::lemma_mod_pos_bound(j as int, k as int);
            assert(0 <= y < k && (k - 1 - y) * k + x < k * k && k * (k - 1 - j as int
                / k as int) == (k - 1 - j as int / k as int) * k) by (nonlinear_arith)
                requires
                    j == k * y + x,
                    0 <= x < k,
                    0 <= j < k * k,
                    1 <= k,
            ;
        }
        let v = flip_y(p[(k - 1 - y) * k + x]);
        r.push(v);
        j += 1;
    }
    proof {
        assert(r@ =~= flip_y_pat(p@, k as int));
    }
    r
}

/// Whether two patterns are equal symbol for symbol.
fn pattern_eq(a: &Vec<TileType>, b: &Vec<TileType>) -> (r: bool)
    ensures
        r == (a@ == b@),
{
    if a.len() != b.len() {
        proof {
            assert(a@.len() != b@.len());
        }
        return false;
    }
    let mut i: usize = 0;
    while i < a.len()
        invariant
            i <= a@.len(),
            a@.len() == b@.len(),
            forall|m: int| 0 <= m < i ==> a@[m] == b@[m],
        decreases a.len() - i,
    {
        if a[i] != b[i] {
            return false;
        }
        i += 1;
    }
    proof {
        assert(a@ =~= b@);
    }
    true
}

/// The mathematical values of a pattern list.
pub open spec fn pat_views(v: Seq<Vec<TileType>>) -> Seq<Seq<TileType>> {
    v.map(|i: int, p: Vec<TileType>| p@)
}

/// Whether a pattern already occurs in the list.
fn contains_pattern(v: &Vec<Vec<TileType>>, p: &Vec<TileType>) -> (r: bool)
    ensures
        r == pat_views(v@).contains(p@),
{
    let mut i: usize = 0;
    while i < v.len()
        invariant
            i <= v@.len(),
            forall|m: int| 0 <= m < i ==> pat_views(v@)[m] != p@,
        decreases v.len() - i,
    {
        if pattern_eq(&v[i], p) {
            proof {
                assert(pat_views(v@)[i as int] == p@);
            }
            return true;
        }
        i += 1;
    }
    proof {
        if pat_views(v@).contains(p@) {
            let m = choose|m: int| 0 <= m < pat_views(v@).len() && pat_views(v@)[m] == p@;
            assert(false);
        }
    }
    false
}

/// The orientations one chunk contributes: the chunk itself and, when
/// flipping is on, its two mirrors and their composition.
pub open spec fn chunk_group(
    tiles: Seq<TileType>,
    w: int,
    k: int,
    cx: int,
    cy: int,
    flip: bool,
) -> Seq<Seq<TileType>> {
    let b = pattern_at(tiles, w, k, cx, cy);
    if flip {
        seq![b, flip_x_pat(b, k), flip_y_pat(b, k), flip_x_pat(flip_y_pat(b, k), k)]
    } else {
        seq![b]
    }
}

/// All patterns of the first `n` chunks, enumerated row of chunks by row of
/// chunks.
pub open spec fn all_patterns(
    tiles: Seq<TileType>,
    w: int,
    k: int,
    cxs: int,
    n: int,
    flip: bool,
) -> Seq<Seq<TileType>>
    decreases n,
{
    if n <= 0 {
        Seq::empty()
    } else {
        all_patterns(tiles, w, k, cxs, n - 1, flip) + chunk_group(
            tiles,
            w,
            k,
            (n - 1) % cxs,
            (n - 1) / cxs,
            flip,
        )
    }
}

/// The patterns with every exact duplicate dropped, keeping the first
/// occurrence of each, in order.
pub open spec fn dedupe_first(ps: Seq<Seq<TileType>>) -> Seq<Seq<TileType>>
    decreases ps.len(),
{
    if ps.len() == 0 {
        Seq::empty()
    } else {
        let r = dedupe_first(ps.drop_last());
        if r.contains(ps.last()) {
            r
        } else {
            r.push(ps.last())
        }
    }
}

/// Enumerate every aligned `chunk_size` x `chunk_size` pattern of the
/// sample map, with its mirrored variants when `include_flipping` is set,
/// and, when `dedupe` is set, drop exact duplicates keeping first
/// occurrences.
#[verifier::loop_isolation(false)]
#[verifier::rlimit(60)]
pub fn build_patterns(
    map: &ChunkMap,
    chunk_size: i32,
    include_flipping: bool,
    dedupe: bool,
) -> (r: Vec<Vec<TileType>>)
    requires
        map.wf(),
        1 <= chunk_size,
    ensures
        ({
            let cxs = map.width as int / chunk_size as int;
            let cys = map.height as int / chunk_size as int;
            let whole = all_patterns(
                map.tiles@,
                map.width as int,
                chunk_size as int,
                cxs,
                cxs * cys,
                include_flipping,
            );
            pat_views(r@) == if dedupe {
                dedupe_first(whole)
            } else {
                whole
            }
        }),
{
    let k = chunk_size as usize;
    let ghost ki = chunk_size as int;
    let ghost w = map.width as int;
    let chunks_x = (map.width / chunk_size) as usize;
    let chunks_y = (map.height / chunk_size) as usize;
    let ghost cxs = map.width as int / chunk_size as int;
    let ghost cys = map.height as int / chunk_size as int;
    let ghost rw = map.width as int % ki;
    let ghost rh = map.height as int % ki;
    proof {
        vstd::arithmetic::div_mod::lemma_fundamental_div_mod(map.width as int, ki);
        vstd::arithmetic::div_mod::lemma_mod_pos_bound(map.width as int, ki);
        vstd::arithmetic::div_mod::lemma_fundamental_div_mod(map.height as int, ki);
        vstd::arithmetic::div_mod::lemma_mod_pos_bound(map.height as int, ki);
    }
    let mut patterns: Vec<Vec<TileType>> = Vec::new();
    let mut cy: usize = 0;
    while cy < chunks_y
        invariant
            cy <= chunks_y,
            pat_views(patterns@) == all_patterns(
                map.tiles@, w, ki, cxs, cxs * cy, include_flipping),
        decreases chunks_y - cy,
    {
        let mut cx: usize = 0;
        while cx < chunks_x
            invariant
                cy < chunks_y,
                cx <= chunks_x,
                pat_views(patterns@) == all_patterns(
                    map.tiles@, w, ki, cxs, cxs * cy + cx, include_flipping),
            decreases chunks_x - cx,
        {
            proof {
                assert((cx + 1) * ki <= w && (cy + 1) * ki <= map.height as int
                    && cxs * cy + cx + 1 <= cxs * cys) by (nonlinear_arith)
                    requires
                        0 <= cx < cxs,
                        0 <= cy < cys,
                        1 <= ki,
                        w == ki * cxs + rw,
                        map.height as int == ki * cys + rh,
                        0 <= rw,
                        0 <= rh,
                ;
                vstd::arithmetic::div_mod::lemma_fundamental_div_mod_converse(
                    cxs * cy + cx, cxs, cy as int, cx as int);
            }
            let base = extract_chunk(map, k, cx, cy);
            let ghost before = pat_views(patterns@);
            let ghost c = cxs * cy + cx;
            if include_flipping {
                let fx = flip_pattern_x(&base, k);
                let fy = flip_pattern_y(&base, k);
                let fxy = flip_pattern_x(&fy, k);
                patterns.push(base);
                patterns.push(fx);
                patterns.push(fy);
                patterns.push(fxy);
            } else {
                patterns.push(base);
            }
            proof {
                assert(pat_views(patterns@) =~= before + chunk_group(
                    map.tiles@, w, ki, cx as int, cy as int, include_flipping));
                assert(all_patterns(map.tiles@, w, ki, cxs, c + 1, include_flipping)
                    == all_patterns(map.tiles@, w, ki, cxs, c, include_flipping)
                    + chunk_group(map.tiles@, w, ki, c % cxs, c / cxs, include_flipping));
            }
            cx += 1;
        }
        proof {
            assert(cxs * cy + cxs == cxs * (cy + 1)) by (nonlinear_arith);
        }
        cy += 1;
    }
    proof {
        assert(cxs * cys == cxs * chunks_y);
    }
    if !dedupe {
        return patterns;
    }
    let mut out: Vec<Vec<TileType>> = Vec::new();
    let mut m: usize = 0;
    while m < patterns.len()
        invariant
            m <= patterns@.len(),
            pat_views(out@) == dedupe_first(pat_views(patterns@).take(m as int)),
        decreases patterns.len() - m,
    {
        proof {
            assert(pat_views(patterns@).take(m + 1).drop_last() =~= pat_views(
                patterns@).take(m as int));
            assert(pat_views(patterns@).take(m + 1).last() == patterns@[m as int]@);
        }
        if !contains_pattern(&out, &patterns[m]) {
            let copy = crate::chunkmap::copy_tiles(&patterns[m]);
            out.push(copy);
            proof {
                assert(pat_views(out@) =~= dedupe_first(pat_views(patterns@).take(m + 1)));
            }
        } else {
            proof {
                assert(pat_views(out@) =~= dedupe_first(pat_views(patterns@).take(m + 1)));
            }
        }
        m += 1;
    }
    proof {
        assert(pat_views(patterns@).take(patterns@.len() as int) =~= pat_views(patterns@));
    }
    out
}

/// The symbol at position `i` of the strip of `p` along side `d`: the top
/// and bottom rows are read with `x` ascending, the side columns with `y`
/// ascending.
pub open spec fn strip_sym(p: Seq<TileType>, k: int, d: Direction, i: int) -> TileType {
    match d {
        Direction::North => p[i],
        Direction::South => p[k * (k - 1) + i],
        Direction::West => p[k * i],
        Direction::East => p[k * i + (k - 1)],
    }
}

/// Two strip symbols abut: they are equal, or either is the wildcard.
pub open spec fn sym_compat(a: TileType, b: TileType) -> bool {
    a == b || a == TileType::Constraint || b == TileType::Constraint
}

/// Some pattern may abut pattern `pi` in direction `d` at strip position
/// `i`: its facing strip symbol is compatible there.
pub open spec fn exit_spec(
    pats: Seq<Seq<TileType>>,
    k: int,
    pi: int,
    d: Direction,
    i: int,
) -> bool {
    exists|b: int|
        0 <= b < pats.len() && sym_compat(
            strip_sym(pats[pi], k, d, i),
            #[trigger] strip_sym(pats[b], k, opposite(d), i),
        )
}

/// A pattern with, for each of the four directions, its exit vector: which
/// strip positions some other pattern can abut.
#[derive(Debug)]
pub struct MapChunk {
    pub pattern: Vec<TileType>,
    pub exits_north: Vec<bool>,
    pub exits_south: Vec<bool>,
    pub exits_west: Vec<bool>,
    pub exits_east: Vec<bool>,
}

/// The constraints derived for pattern `pi` are exactly its pattern and the
/// four exit vectors of [`exit_spec`].
pub open spec fn chunk_ok(pats: Seq<Seq<TileType>>, k: int, pi: int, c: MapChunk) -> bool {
    &&& c.pattern@ == pats[pi]
    &&& c.exits_north@.len() == k
    &&& c.exits_south@.len() == k
    &&& c.exits_west@.len() == k
    &&& c.exits_east@.len() == k
    &&& forall|i: int| 0 <= i < k ==> #[trigger] c.exits_north@[i] == exit_spec(
        pats, k, pi, Direction::North, i)
    &&& forall|i: int| 0 <= i < k ==> #[trigger] c.exits_south@[i] == exit_spec(
        pats, k, pi, Direction::South, i)
    &&& forall|i: int| 0 <= i < k ==> #[trigger] c.exits_west@[i] == exit_spec(
        pats, k, pi, Direction::West, i)
    &&& forall|i: int| 0 <= i < k ==> #[trigger] c.exits_east@[i] == exit_spec(
        pats, k, pi, Direction::East, i)
}

/// The strip symbol of one pattern, read off the vector.
#[verifier::loop_isolation(false)]
fn strip_at(p: &Vec<TileType>, k: usize, d: Direction, i: usize) -> (r: TileType)
    requires
        1 <= k,
        p@.len() == k * k,
        i < k,
    ensures
        r == strip_sym(p@, k as int, d, i as int),
{
    let n = p.len();
    proof {
        assert(k * (k - 1) + i < k * k && k * i < k * k && k * i + (k - 1) < k * k)
            by (nonlinear_arith)
            requires 0 <= i < k && 1 <= k;
    }
    match d {
        Direction::North => p[i],
        Direction::South => p[k * (k - 1) + i],
        Direction::West => p[k * i],
        Direction::East => p[k * i + (k - 1)],
    }
}

/// Whether two strip symbols abut.
fn sym_ok(a: TileType, b: TileType) -> (r: bool)
    ensures
        r == sym_compat(a, b),
{
    a == b || a == TileType::Constraint || b == TileType::Constraint
}

/// Whether any pattern may abut pattern `pi` in direction `d` at strip
/// position `i`.
#[verifier::loop_isolation(false)]
fn any_match(patterns: &Vec<Vec<TileType>>, k: usize, pi: usize, d: Direction, i: usize) -> (r:
    bool)
    requires
        1 <= k,
        pi < patterns@.len(),
        forall|m: int| 0 <= m < patterns@.len() ==> (#[trigger] patterns@[m])@.len() == k * k,
        i < k,
    ensures
        r == exit_spec(pat_views(patterns@), k as int, pi as int, d, i as int),
{
    let own = strip_at(&patterns[pi], k, d, i);
    let mut b: usize = 0;
    while b < patterns.len()
        invariant
            b <= patterns@.len(),
            own == strip_sym(pat_views(patterns@)[pi as int], k as int, d, i as int),
            forall|m: int| 0 <= m < b ==> !sym_compat(
                own,
                #[trigger] strip_sym(pat_views(patterns@)[m], k as int, opposite(d), i as int),
            ),
        decreases patterns.len() - b,
    {
        let other = strip_at(&patterns[b], k, opposite_dir(d), i);
        if sym_ok(own, other) {
            proof {
                assert(sym_compat(own, strip_sym(
                    pat_views(patterns@)[b as int], k as int, opposite(d), i as int)));
            }
            return true;
        }
        b += 1;
    }
    proof {
        if exit_spec(pat_views(patterns@), k as int, pi as int, d, i as int) {
            let m = choose|m: int|
                0 <= m < pat_views(patterns@).len() && sym_compat(
                    strip_sym(pat_views(patterns@)[pi as int], k as int, d, i as int),
                    #[trigger] strip_sym(
                        pat_views(patterns@)[m], k as int, opposite(d), i as int),
                );
            assert(false);
        }
    }
    false
}

/// The exec mirror of [`opposite`].
pub fn opposite_dir(d: Direction) -> (r: Direction)
    ensures
        r == opposite(d),
{
    match d {
        Direction::North => Direction::South,
        Direction::East => Direction::West,
        Direction::South => Direction::North,
        Direction::West => Direction::East,
    }
}

/// One direction's exit vector for pattern `pi`.
#[verifier::loop_isolation(false)]
fn exit_vector(patterns: &Vec<Vec<TileType>>, k: usize, pi: usize, d: Direction) -> (r: Vec<
    bool,
>)
    requires
        1 <= k,
        pi < patterns@.len(),
        forall|m: int| 0 <= m < patterns@.len() ==> (#[trigger] patterns@[m])@.len() == k * k,
    ensures
        r@.len() == k,
        forall|i: int| 0 <= i < k ==> #[trigger] r@[i] == exit_spec(
            pat_views(patterns@), k as int, pi as int, d, i),
{
    let mut r: Vec<bool> = Vec::new();
    let mut i: usize = 0;
    while i < k
        invariant
            i <= k,
            r@.len() == i,
            forall|m: int| 0 <= m < i ==> #[trigger] r@[m] == exit_spec(
                pat_views(patterns@), k as int, pi as int, d, m),
        decreases k - i,
    {
        let v = any_match(patterns, k, pi, d, i);
        r.push(v);
        i += 1;
    }
    r
}

/// Turn each pattern into its constraint record: the pattern itself and,
/// for each direction, which strip positions some pattern can abut, by the
/// wildcard-tolerant overlap test.
#[verifier::loop_isolation(false)]
pub fn patterns_to_constraints(patterns: Vec<Vec<TileType>>, chunk_size: i32) -> (r: Vec<
    MapChunk,
>)
    requires
        1 <= chunk_size,
        forall|m: int| 0 <= m < patterns@.len() ==> (#[trigger] patterns@[m])@.len()
            == chunk_size * chunk_size,
    ensures
        r@.len() == patterns@.len(),
        forall|m: int| 0 <= m < r@.len() ==> chunk_ok(
            pat_views(patterns@), chunk_size as int, m, #[trigger] r@[m]),
{
    let k = chunk_size as usize;
    let mut r: Vec<MapChunk> = Vec::new();
    let mut pi: usize = 0;
    while pi < patterns.len()
        invariant
            pi <= patterns@.len(),
            r@.len() == pi,
            forall|m: int| 0 <= m < pi ==> chunk_ok(
                pat_views(patterns@), chunk_size as int, m, #[trigger] r@[m]),
        decreases patterns.len() - pi,
    {
        let c = MapChunk {
            pattern: crate::chunkmap::copy_tiles(&patterns[pi]),
            exits_north: exit_vector(&patterns, k, pi, Direction::North),
            exits_south: exit_vector(&patterns, k, pi, Direction::South),
            exits_west: exit_vector(&patterns, k, pi, Direction::West),
            exits_east: exit_vector(&patterns, k, pi, Direction::East),
        };
        proof {
            assert(chunk_ok(pat_views(patterns@), chunk_size as int, pi as int, c));
        }
        r.push(c);
        pi += 1;
    }
    r
}

/// Which cells of the map the rendering of one chunk has filled so far,
/// sweeping the chunk region row by row.
pub open spec fn render_visited(
    w: int,
    k: int,
    sx: int,
    sy: int,
    ly: int,
    lx: int,
    c: int,
) -> bool {
    let x = c % w;
    let y = c / w;
    &&& sx <= x < sx + k
    &&& sy <= y < sy + k
    &&& (y - sy < ly || (y - sy == ly && x - sx < lx))
}

/// The symbol one rendered cell ends up with: the chunk's pattern symbol,
/// overridden by the wildcard wherever an exit leaves the chunk's rim.
pub open spec fn render_cell(
    m0: Seq<TileType>,
    w: int,
    chunk: MapChunk,
    k: int,
    sx: int,
    sy: int,
    c: int,
) -> TileType {
    let x = c % w;
    let y = c / w;
    if sx <= x < sx + k && sy <= y < sy + k {
        let lx = x - sx;
        let ly = y - sy;
        if (ly == 0 && chunk.exits_north@[lx]) || (ly == k - 1 && chunk.exits_south@[lx]) || (lx
            == 0 && chunk.exits_west@[ly]) || (lx == k - 1 && chunk.exits_east@[ly]) {
            TileType::Constraint
        } else {
            chunk.pattern@[k * ly + lx]
        }
    } else {
        m0[c]
    }
}

/// Draw one chunk onto the map with its top-left corner at
/// `(start_x, start_y)`: the pattern's symbols, with the wildcard on every
/// rim cell where an exit vector is set.
#[verifier::loop_isolation(false)]
#[verifier::rlimit(60)]
pub fn render_pattern_to_map(
    map: &mut ChunkMap,
    chunk: &MapChunk,
    chunk_size: i32,
    start_x: i32,
    start_y: i32,
)
    requires
        old(map).wf(),
        1 <= chunk_size,
        chunk.pattern@.len() == chunk_size * chunk_size,
        chunk.exits_north@.len() == chunk_size,
        chunk.exits_south@.len() == chunk_size,
        chunk.exits_west@.len() == chunk_size,
        chunk.exits_east@.len() == chunk_size,
        0 <= start_x,
        0 <= start_y,
        start_x + chunk_size <= old(map).width,
        start_y + chunk_size <= old(map).height,
    ensures
        final(map).wf(),
        final(map).width == old(map).width,
        final(map).height == old(map).height,
        final(map).tiles@.len() == old(map).tiles@.len(),
        forall|c: int|
            0 <= c < final(map).tiles@.len() ==> #[trigger] final(map).tiles@[c] == render_cell(
                old(map).tiles@,
                old(map).width as int,
                *chunk,
                chunk_size as int,
                start_x as int,
                start_y as int,
                c,
            ),
{
    let k = chunk_size as usize;
    let n = map.tiles.len();
    let np = chunk.pattern.len();
    let ghost m0 = map.tiles@;
    let ghost w = map.width as int;
    let ghost ki = chunk_size as int;
    let ghost sx = start_x as int;
    let ghost sy = start_y as int;
    let mut ly: usize = 0;
    while ly < k
        invariant
            ly <= k,
            map.wf(),
            map.width == old(map).width,
            map.height == old(map).height,
            map.tiles@.len() == n,
            forall|c: int|
                0 <= c < n ==> #[trigger] map.tiles@[c] == (if render_visited(
                    w, ki, sx, sy, ly as int, 0, c) {
                    render_cell(m0, w, *chunk, ki, sx, sy, c)
                } else {
                    m0[c]
                }),
        decreases k - ly,
    {
        let mut lx: usize = 0;
        while lx < k
            invariant
                ly < k,
                lx <= k,
                map.wf(),
                map.width == old(map).width,
                map.height == old(map).height,
                map.tiles@.len() == n,
                forall|c: int|
                    0 <= c < n ==> #[trigger] map.tiles@[c] == (if render_visited(
                        w, ki, sx, sy, ly as int, lx as int, c) {
                        render_cell(m0, w, *chunk, ki, sx, sy, c)
                    } else {
                        m0[c]
                    }),
            decreases k - lx,
        {
            proof {
                assert((start_y as int + ly) * w + start_x as int + lx < w
                    * map.height as int && k * ly + lx < k * k) by (nonlinear_arith)
                    requires
                        0 <= lx < k,
                        0 <= ly < k,
                        1 <= k,
                        1 <= w,
                        0 <= start_x as int,
                        0 <= start_y as int,
                        start_x as int + k <= w,
                        start_y as int + k <= map.height as int,
                ;
                vstd::arithmetic::div_mod::lemma_fundamental_div_mod_converse(
                    (start_y as int + ly) * w + start_x as int + lx,
                    w,
                    start_y as int + ly,
                    start_x as int + lx,
                );
            }
            let gy = start_y as usize + ly;
            let gx = start_x as usize + lx;
            let idx = gy * (map.width as usize) + gx;
            let on_exit = (ly == 0 && chunk.exits_north[lx]) || (ly == k - 1
                && chunk.exits_south[lx]) || (lx == 0 && chunk.exits_west[ly]) || (lx == k - 1
                && chunk.exits_east[ly]);
            let v = if on_exit {
                TileType::Constraint
            } else {
                proof {
                    assert(ly * k + lx < k * k && k * (ly as int) == (ly as int) * k)
                        by (nonlinear_arith)
                        requires 0 <= lx < k && 0 <= ly < k && 1 <= k;
                }
                chunk.pattern[ly * k + lx]
            };
            let ghost before = map.tiles@;
            map.tiles.set(idx, v);
            proof {
                assert(map.tiles@[idx as int] == render_cell(m0, w, *chunk, ki, sx, sy,
                    idx as int));
                assert forall|c: int| 0 <= c < n implies #[trigger] map.tiles@[c] == (
                if render_visited(w, ki, sx, sy, ly as int, lx + 1, c) {
                    render_cell(m0, w, *chunk, ki, sx, sy, c)
                } else {
                    m0[c]
                }) by {
                    crate::direction::lemma_grid_coords_rect(c, w, map.height as int);
                    assert(w * (sy + ly) == (sy + ly) * w) by (nonlinear_arith);
                    if c != idx {
                        assert(map.tiles@[c] == before[c]);
                        if c % w == sx + lx && c / w == sy + ly {
                            assert(c == idx);
                        }
                        assert(render_visited(w, ki, sx, sy, ly as int, lx + 1, c)
                            == render_visited(w, ki, sx, sy, ly as int, lx as int, c));
                    }
                };
            }
            lx += 1;
        }
        proof {
            assert forall|c: int| 0 <= c < n implies render_visited(
                w, ki, sx, sy, ly as int, k as int, c) == render_visited(
                w, ki, sx, sy, ly + 1, 0, c) by {
                crate::direction::lemma_grid_coords_rect(c, w, map.height as int);
            };
        }
        ly += 1;
    }
    proof {
        assert forall|c: int| 0 <= c < n implies #[trigger] final(map).tiles@[c] == render_cell(
            m0, w, *chunk, ki, sx, sy, c) by {
            crate::direction::lemma_grid_coords_rect(c, w, map.height as int);
            if render_visited(w, ki, sx, sy, k as int, 0, c) {
            } else {
                assert(!(sx <= c % w < sx + ki && sy <= c / w < sy + ki));
            }
        };
    }
}

/// The chunk-model pipeline: the working map and the ledger of snapshots
/// taken while patterns are derived and rendered.  The chunk model stops at
/// constraint derivation and the gallery; it carries no solve loop.
#[derive(Debug)]
pub struct Wfc {
    pub map: ChunkMap,
    pub history: Vec<ChunkMap>,
}

impl Wfc {
    /// A generator over the given map, with an empty ledger.
    pub fn new(map: ChunkMap) -> (r: Wfc)
        ensures
            r.map == map,
            r.history@.len() == 0,
    {
        Wfc { map, history: Vec::new() }
    }

    /// Append a copy of the working map to the ledger.
    pub fn take_snapshot(&mut self)
        ensures
            final(self).map == old(self).map,
            final(self).history@.len() == old(self).history@.len() + 1,
            final(self).history@.take(old(self).history@.len() as int) == old(self).history@,
            final(self).history@.last().tiles@ == old(self).map.tiles@,
            final(self).history@.last().width == old(self).map.width,
            final(self).history@.last().height == old(self).map.height,
    {
        let snap = self.map.clone();
        self.history.push(snap);
        proof {
            assert(self.history@.take(old(self).history@.len() as int) =~= old(self).history@);
        }
    }

    /// Draw every constraint chunk into fresh maps, left to right and top to
    /// bottom, snapshotting each filled page: a gallery of the catalog for
    /// inspection.
    #[verifier::loop_isolation(false)]
    pub fn render_tile_gallery(&mut self, constraints: &Vec<MapChunk>, chunk_size: i32)
        requires
            1 <= chunk_size,
            chunk_size + 1 < MAPWIDTH as i32,
            chunk_size + 1 < MAPHEIGHT as i32,
            forall|m: int|
                0 <= m < constraints@.len() ==> (#[trigger] constraints@[m]).pattern@.len()
                    == chunk_size * chunk_size && constraints@[m].exits_north@.len() == chunk_size
                    && constraints@[m].exits_south@.len() == chunk_size
                    && constraints@[m].exits_west@.len() == chunk_size
                    && constraints@[m].exits_east@.len() == chunk_size,
        ensures
            final(self).history@.len() > old(self).history@.len(),
            final(self).history@.take(old(self).history@.len() as int) == old(self).history@,
            final(self).map.wf(),
            forall|k: int|
                old(self).history@.len() <= k < final(self).history@.len() ==> (
                #[trigger] final(self).history@[k]).tiles@.len() == MAPCOUNT
                    && final(self).history@[k].width == MAPWIDTH as i32
                    && final(self).history@[k].height == MAPHEIGHT as i32,
    {
        self.map = ChunkMap::new();
        let mut counter: usize = 0;
        let mut x: i32 = 1;
        let mut y: i32 = 1;
        while counter < constraints.len()
            invariant
                counter <= constraints@.len(),
                self.map.wf(),
                self.map.width == MAPWIDTH as i32,
                self.map.height == MAPHEIGHT as i32,
                1 <= x,
                x + chunk_size <= self.map.width,
                1 <= y,
                y + chunk_size <= self.map.height,
                old(self).history@.len() <= self.history@.len(),
                self.history@.take(old(self).history@.len() as int) == old(self).history@,
                self.map.tiles@.len() == MAPCOUNT,
                forall|k: int|
                    old(self).history@.len() <= k < self.history@.len() ==> (
                    #[trigger] self.history@[k]).tiles@.len() == MAPCOUNT
                        && self.history@[k].width == MAPWIDTH as i32
                        && self.history@[k].height == MAPHEIGHT as i32,
            decreases constraints.len() - counter,
        {
            render_pattern_to_map(&mut self.map, &constraints[counter], chunk_size, x, y);

            x += chunk_size + 1;
            if x + chunk_size > self.map.width {
                x = 1;
                y += chunk_size + 1;

                if y + chunk_size > self.map.height {
                    let ghost ph = self.history@;
                    self.take_snapshot();
                    proof {
                        assert forall|k: int|
                            old(self).history@.len() <= k < self.history@.len()
                            implies (#[trigger] self.history@[k]).tiles@.len() == MAPCOUNT
                                && self.history@[k].width == MAPWIDTH as i32
                                && self.history@[k].height == MAPHEIGHT as i32 by {
                            if k < ph.len() {
                                assert(self.history@[k] == self.history@.take(
                                    ph.len() as int)[k]);
                            }
                        };
                    }
                    self.map = ChunkMap::new();

                    x = 1;
                    y = 1;
                }
            }

            counter += 1;
        }

        let ghost ph = self.history@;
        self.take_snapshot();
        proof {
            assert(self.history@.take(old(self).history@.len() as int) =~= old(self).history@);
            assert forall|k: int| old(self).history@.len() <= k < self.history@.len()
                implies (#[trigger] self.history@[k]).tiles@.len() == MAPCOUNT
                    && self.history@[k].width == MAPWIDTH as i32
                    && self.history@[k].height == MAPHEIGHT as i32 by {
                if k < ph.len() {
                    assert(self.history@[k] == self.history@.take(ph.len() as int)[k]);
                }
            };
        }
    }
}

} // verus!
