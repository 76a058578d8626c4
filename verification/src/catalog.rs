use vstd::prelude::*;

use crate::direction::Direction;
use crate::raster::{rot90_spec, TileImage};
use crate::tile::bytes_eq;

verus! {

/// Strict lexicographic order on pixel strings: the order the catalog is
/// sorted by before duplicates are dropped.
pub open spec fn lex_lt(a: Seq<u8>, b: Seq<u8>) -> bool
    decreases a.len(),
{
    if b.len() == 0 {
        false
    } else if a.len() == 0 {
        true
    } else if a[0] < b[0] {
        true
    } else if a[0] > b[0] {
        false
    } else {
        lex_lt(a.drop_first(), b.drop_first())
    }
}

/// Of two pixel strings, either one is smaller or they are equal, and never
/// two of those at once.
pub proof fn lemma_lex_trichotomy(a: Seq<u8>, b: Seq<u8>)
    ensures
        lex_lt(a, b) || lex_lt(b, a) || a == b,
        lex_lt(a, b) ==> !lex_lt(b, a) && a != b,
        lex_lt(b, a) ==> !lex_lt(a, b) && b != a,
    decreases a.len(),
{
    if a.len() == 0 && b.len() == 0 {
        assert(a =~= b);
    } else if a.len() > 0 && b.len() > 0 {
        lemma_lex_trichotomy(a.drop_first(), b.drop_first());
        if a[0] == b[0] && a.drop_first() == b.drop_first() {
            assert forall|k: int| 0 <= k < a.len() implies a[k] == b[k] by {
                if k > 0 {
                    assert(a.drop_first()[k - 1] == b.drop_first()[k - 1]);
                }
            };
            assert(a =~= b);
        }
        if a == b {
            assert(a.drop_first() == b.drop_first());
        }
    }
}

/// Lexicographic order is transitive.
pub proof fn lemma_lex_trans(a: Seq<u8>, b: Seq<u8>, c: Seq<u8>)
    requires
        lex_lt(a, b),
        lex_lt(b, c),
    ensures
        lex_lt(a, c),
    decreases a.len(),
{
    if a.len() > 0 && b.len() > 0 && c.len() > 0 && a[0] == b[0] && b[0] == c[0] {
        lemma_lex_trans(a.drop_first(), b.drop_first(), c.drop_first());
    }
}

/// Comparing two strings that agree on a prefix comes down to comparing what
/// follows the prefix.
pub proof fn lemma_lex_skip(a: Seq<u8>, b: Seq<u8>, i: int)
    requires
        0 <= i <= a.len(),
        i <= b.len(),
        forall|k: int| 0 <= k < i ==> a[k] == b[k],
    ensures
        lex_lt(a, b) == lex_lt(a.skip(i), b.skip(i)),
    decreases i,
{
    if i > 0 {
        lemma_lex_skip(a.drop_first(), b.drop_first(), i - 1);
        assert(a.drop_first().skip(i - 1) =~= a.skip(i));
        assert(b.drop_first().skip(i - 1) =~= b.skip(i));
        assert(a.len() > 0 && b.len() > 0 && a[0] == b[0]);
        assert(forall|k: int| 0 <= k < i - 1 ==> a.drop_first()[k] == b.drop_first()[k]);
    } else {
        assert(a.skip(0) =~= a);
        assert(b.skip(0) =~= b);
    }
}

/// Whether the pixels of `a` come lexicographically before those of `b`.
pub fn bytes_lt(a: &Vec<u8>, b: &Vec<u8>) -> (r: bool)
    ensures
        r == lex_lt(a@, b@),
{
    let mut i: usize = 0;
    while i < a.len() && i < b.len()
        invariant
            i <= a@.len(),
            i <= b@.len(),
            forall|k: int| 0 <= k < i ==> a@[k] == b@[k],
        decreases a.len() - i,
    {
        if a[i] < b[i] {
            proof {
                lemma_lex_skip(a@, b@, i as int);
                assert(a@.skip(i as int)[0] == a@[i as int]);
                assert(b@.skip(i as int)[0] == b@[i as int]);
            }
            return true;
        }
        if a[i] > b[i] {
            proof {
                lemma_lex_skip(a@, b@, i as int);
                assert(a@.skip(i as int)[0] == a@[i as int]);
                assert(b@.skip(i as int)[0] == b@[i as int]);
            }
            return false;
        }
        i += 1;
    }
    proof {
        lemma_lex_skip(a@, b@, i as int);
        if i < b@.len() {
            assert(a@.skip(i as int).len() == 0);
            assert(b@.skip(i as int).len() > 0);
        } else {
            assert(b@.skip(i as int).len() == 0);
        }
    }
    i < b.len()
}

/// One surviving tile variant cut from the sample image: the index of the
/// sample cell it came from, the rotation it carries, and its pixels.
#[derive(Debug)]
pub struct VariantSeed {
    pub asset: usize,
    pub direction: Direction,
    pub image: TileImage,
}

/// The rotation carried by `r` clockwise quarter turns.
pub open spec fn dir_of(r: int) -> Direction {
    if r == 0 {
        Direction::North
    } else if r == 1 {
        Direction::East
    } else if r == 2 {
        Direction::South
    } else {
        Direction::West
    }
}

/// The pixels of the `tile_size` x `tile_size` cell of the sample at cell
/// coordinates `(cx, cy)`.
pub open spec fn cell_pixels(img: TileImage, k: int, cx: int, cy: int) -> Seq<u8> {
    Seq::new((k * k) as nat, |j: int| img.pixel(cx * k + j % k, cy * k + j / k))
}

/// `p` turned `r` quarter turns clockwise, for a square `k` x `k` image.
pub open spec fn rot_pixels(p: Seq<u8>, k: int, r: int) -> Seq<u8>
    decreases r,
{
    if r <= 0 {
        p
    } else {
        rot90_spec(k, k, rot_pixels(p, k, r - 1))
    }
}

/// The seed is one of the enumerated rotations of one of the sample's cells,
/// with the cell's index recorded as its asset.
pub open spec fn is_enumerated(img: TileImage, k: int, seed: VariantSeed) -> bool {
    exists|cx: int, cy: int, r: int|
        #![trigger rot_pixels(cell_pixels(img, k, cx, cy), k, r)]
        0 <= cx < img.width as int / k && 0 <= cy < img.height as int / k && 0 <= r < 4
            && seed.asset == cy * (img.width as int / k) + cx && seed.direction == dir_of(r)
            && seed.image.pixels@ == rot_pixels(
            cell_pixels(img, k, cx, cy),
            k,
            r,
        )
}

/// A well-formed seed of the catalog of `img` cut at size `k`.
pub open spec fn seed_ok(img: TileImage, k: int, seed: VariantSeed) -> bool {
    &&& seed.image.wf()
    &&& seed.image.width == k
    &&& seed.image.height == k
    &&& is_enumerated(img, k, seed)
}

/// The pixel string `p` survives in the seed list.
pub open spec fn pixels_present(seeds: Seq<VariantSeed>, p: Seq<u8>) -> bool {
    exists|m: int| 0 <= m < seeds.len() && #[trigger] seeds[m].image.pixels@ == p
}

/// The seed list is strictly sorted by its pixel strings.
pub open spec fn seeds_sorted(seeds: Seq<VariantSeed>) -> bool {
    forall|m1: int, m2: int|
        0 <= m1 < m2 < seeds.len() ==> lex_lt(
            (#[trigger] seeds[m1]).image.pixels@,
            (#[trigger] seeds[m2]).image.pixels@,
        )
}

/// In a strictly sorted seed list no two seeds share their pixel string:
/// the dedupe is total.
pub proof fn lemma_sorted_seeds_distinct(seeds: Seq<VariantSeed>)
    requires
        seeds_sorted(seeds),
    ensures
        forall|m1: int, m2: int|
            0 <= m1 < m2 < seeds.len() ==> (#[trigger] seeds[m1]).image.pixels@ != (
            #[trigger] seeds[m2]).image.pixels@,
{
    assert forall|m1: int, m2: int| 0 <= m1 < m2 < seeds.len()
        implies (#[trigger] seeds[m1]).image.pixels@ != (#[trigger] seeds[m2]).image.pixels@ by {
        lemma_lex_trichotomy(seeds[m1].image.pixels@, seeds[m2].image.pixels@);
    };
}

/// Put one seed at its sorted position, unless its pixel string is already
/// present; then it is dropped and the earlier seed stands for it.
fn insert_seed(
    seeds: &mut Vec<VariantSeed>,
    seed: VariantSeed,
    Ghost(img): Ghost<TileImage>,
    Ghost(k): Ghost<int>,
)
    requires
        seeds_sorted(old(seeds)@),
        forall|m: int| 0 <= m < old(seeds)@.len() ==> seed_ok(img, k, #[trigger] old(seeds)@[m]),
        seed_ok(img, k, seed),
    ensures
        seeds_sorted(final(seeds)@),
        forall|m: int|
            0 <= m < final(seeds)@.len()
                ==> seed_ok(img, k, #[trigger] final(seeds)@[m]),
        pixels_present(final(seeds)@, seed.image.pixels@),
        forall|p: Seq<u8>| pixels_present(old(seeds)@, p) ==> pixels_present(final(seeds)@, p),
        final(seeds)@.len() <= old(seeds)@.len() + 1,
{
    let ghost s0 = seeds@;
    let mut p: usize = 0;
    while p < seeds.len() && bytes_lt(&seeds[p].image.pixels, &seed.image.pixels)
        invariant
            p <= seeds@.len(),
            seeds@ == s0,
            forall|m: int| 0 <= m < p ==> lex_lt(
                (#[trigger] seeds@[m]).image.pixels@,
                seed.image.pixels@,
            ),
        decreases seeds.len() - p,
    {
        p += 1;
    }
    if p < seeds.len() && bytes_eq(&seeds[p].image.pixels, &seed.image.pixels) {
        proof {
            assert(seeds@[p as int].image.pixels@ == seed.image.pixels@);
        }
        return ;
    }
    proof {
        if p < s0.len() {
            lemma_lex_trichotomy(s0[p as int].image.pixels@, seed.image.pixels@);
            assert(lex_lt(seed.image.pixels@, s0[p as int].image.pixels@));
        }
    }
    seeds.insert(p, seed);
    proof {
        let sn = seeds@;
        assert forall|m: int| 0 <= m < p implies sn[m] == s0[m] by {};
        assert(sn[p as int] == seed);
        assert forall|m: int| p < m < sn.len() implies sn[m] == s0[m - 1] by {};
        assert forall|j: int| p <= j < s0.len() implies lex_lt(
            seed.image.pixels@, (#[trigger] s0[j]).image.pixels@) by {
            if j > p {
                lemma_lex_trans(
                    seed.image.pixels@,
                    s0[p as int].image.pixels@,
                    s0[j].image.pixels@,
                );
            }
        };
        assert forall|m1: int, m2: int| 0 <= m1 < m2 < sn.len() implies lex_lt(
            (#[trigger] sn[m1]).image.pixels@, (#[trigger] sn[m2]).image.pixels@) by {
            if m1 < p && m2 > p {
                lemma_lex_trans(
                    s0[m1].image.pixels@,
                    seed.image.pixels@,
                    s0[m2 - 1].image.pixels@,
                );
            }
        };
        assert(pixels_present(sn, seed.image.pixels@));
        assert forall|q: Seq<u8>| pixels_present(s0, q) implies pixels_present(sn, q) by {
            let m = choose|m: int| 0 <= m < s0.len() && #[trigger] s0[m].image.pixels@ == q;
            if m < p {
                assert(sn[m].image.pixels@ == q);
            } else {
                assert(sn[m + 1].image.pixels@ == q);
            }
        };
    }
}

/// The pixels of a crop of one sample cell are exactly that cell's pixels.
proof fn lemma_crop_cell(img: TileImage, k: int, cx: int, cy: int, c: TileImage)
    requires
        img.wf(),
        1 <= k,
        0 <= cx,
        0 <= cy,
        cx * k + k <= img.width,
        cy * k + k <= img.height,
        c.wf(),
        c.width == k,
        c.height == k,
        forall|x: int, y: int|
            0 <= x < k && 0 <= y < k ==> #[trigger] c.pixel(x, y) == img.pixel(
                cx * k + x,
                cy * k + y,
            ),
    ensures
        c.pixels@ == cell_pixels(img, k, cx, cy),
{
    assert forall|j: int| 0 <= j < k * k implies c.pixels@[j] == cell_pixels(
        img, k, cx, cy)[j] by {
        vstd::arithmetic::div_mod::lemma_fundamental_div_mod(j, k);
        vstd::arithmetic::div_mod::lemma_mod_pos_bound(j, k);
        let x = j % k;
        let y = j / k;
        assert(0 <= y < k) by (nonlinear_arith)
            requires
                j == k * y + x,
                0 <= x < k,
                0 <= j < k * k,
                1 <= k,
        ;
        assert(c.pixel(x, y) == img.pixel(cx * k + x, cy * k + y));
        assert(c.pixels@[j] == c.pixel(x, y));
    };
    assert(c.pixels@ =~= cell_pixels(img, k, cx, cy));
}

/// All the pixel strings of the cell at `(cx2, cy2)` and its rotations
/// survive in the seed list.
pub open spec fn cell_covered(
    img: TileImage,
    k: int,
    seeds: Seq<VariantSeed>,
    cx2: int,
    cy2: int,
) -> bool {
    forall|rot: int|
        0 <= rot < 4 ==> pixels_present(
            seeds,
            #[trigger] rot_pixels(cell_pixels(img, k, cx2, cy2), k, rot),
        )
}

/// The catalog of tile variants cut from the sample image: every
/// `tile_size` x `tile_size` cell in its four rotations, sorted by raw
/// pixels, with exact duplicates dropped.  No two surviving seeds share
/// their pixels.
#[verifier::loop_isolation(false)]
#[verifier::rlimit(60)]
pub fn image_variant_seeds(image: &TileImage, tile_size: usize) -> (r: Vec<VariantSeed>)
    requires
        image.wf(),
        1 <= tile_size,
    ensures
        seeds_sorted(r@),
        forall|m: int| 0 <= m < r@.len() ==> seed_ok(*image, tile_size as int, #[trigger] r@[m]),
        forall|cx2: int, cy2: int|
            0 <= cx2 < image.width as int / tile_size as int && 0 <= cy2 < image.height as int
                / tile_size as int ==> #[trigger] cell_covered(
                *image,
                tile_size as int,
                r@,
                cx2,
                cy2,
            ),
        forall|m1: int, m2: int|
            0 <= m1 < m2 < r@.len() ==> (#[trigger] r@[m1]).image.pixels@ != (
            #[trigger] r@[m2]).image.pixels@,
        r@.len() <= 4 * ((image.width as int / tile_size as int) * (image.height as int
            / tile_size as int)),
{
    let k = tile_size;
    let ghost ki = k as int;
    let ghost img = *image;
    let n_pixels = image.pixels.len();
    let tiles_x = image.width / k;
    let tiles_y = image.height / k;
    proof {
        vstd::arithmetic::div_mod::lemma_fundamental_div_mod(image.width as int, ki);
        vstd::arithmetic::div_mod::lemma_mod_pos_bound(image.width as int, ki);
        vstd::arithmetic::div_mod::lemma_fundamental_div_mod(image.height as int, ki);
        vstd::arithmetic::div_mod::lemma_mod_pos_bound(image.height as int, ki);
    }
    let mut seeds: Vec<VariantSeed> = Vec::new();
    let mut cx: usize = 0;
    while cx < tiles_x
        invariant
            cx <= tiles_x,
            seeds_sorted(seeds@),
            forall|m: int| 0 <= m < seeds@.len() ==> seed_ok(img, ki, #[trigger] seeds@[m]),
            seeds@.len() <= 4 * (cx * tiles_y),
            forall|cx2: int, cy2: int|
                0 <= cx2 < cx && 0 <= cy2 < tiles_y ==> #[trigger] cell_covered(
                    img, ki, seeds@, cx2, cy2),
        decreases tiles_x - cx,
    {
        let mut cy: usize = 0;
        while cy < tiles_y
            invariant
                cy <= tiles_y,
                cx < tiles_x,
                seeds_sorted(seeds@),
                forall|m: int| 0 <= m < seeds@.len() ==> seed_ok(img, ki, #[trigger] seeds@[m]),
                seeds@.len() <= 4 * (cx * tiles_y + cy),
                forall|cx2: int, cy2: int|
                    0 <= cx2 < cx && 0 <= cy2 < tiles_y ==> #[trigger] cell_covered(
                        img, ki, seeds@, cx2, cy2),
                forall|cy2: int|
                    0 <= cy2 < cy ==> #[trigger] cell_covered(img, ki, seeds@, cx as int, cy2),
            decreases tiles_y - cy,
        {
            proof {
                assert(cx * k + k <= image.width && cy * k + k <= image.height
                    && cy * tiles_x + cx < tiles_x * tiles_y
                    && tiles_x * tiles_y <= image.width * image.height) by (nonlinear_arith)
                    requires
                        0 <= cx < tiles_x,
                        0 <= cy < tiles_y,
                        1 <= k,
                        image.width as int == k * (tiles_x as int) + image.width as int % (
                        k as int),
                        image.height as int == k * (tiles_y as int) + image.height as int % (
                        k as int),
                        0 <= image.width as int % (k as int),
                        0 <= image.height as int % (k as int),
                ;
                assert(image.width * image.height == n_pixels);
            }
            let base = image.crop(cx * k, cy * k, k, k);
            let r1 = base.rotate90();
            let r2 = r1.rotate90();
            let r3 = r2.rotate90();
            let asset = cy * tiles_x + cx;
            let ghost cell = cell_pixels(img, ki, cx as int, cy as int);
            proof {
                lemma_crop_cell(img, ki, cx as int, cy as int, base);
                assert(base.pixels@ == rot_pixels(cell, ki, 0));
                assert(r1.pixels@ == rot_pixels(cell, ki, 1));
                assert(r2.pixels@ == rot_pixels(cell, ki, 2));
                assert(r3.pixels@ == rot_pixels(cell, ki, 3));
            }
            let ghost g0 = seeds@;
            let s0 = VariantSeed { asset, direction: Direction::North, image: base };
            proof {
                assert(is_enumerated(img, ki, s0));
            }
            insert_seed(&mut seeds, s0, Ghost(img), Ghost(ki));
            let ghost g1 = seeds@;
            let s1 = VariantSeed { asset, direction: Direction::East, image: r1 };
            proof {
                assert(is_enumerated(img, ki, s1));
            }
            insert_seed(&mut seeds, s1, Ghost(img), Ghost(ki));
            let ghost g2 = seeds@;
            let s2 = VariantSeed { asset, direction: Direction::South, image: r2 };
            proof {
                assert(is_enumerated(img, ki, s2));
            }
            insert_seed(&mut seeds, s2, Ghost(img), Ghost(ki));
            let ghost g3 = seeds@;
            let s3 = VariantSeed { asset, direction: Direction::West, image: r3 };
            proof {
                assert(is_enumerated(img, ki, s3));
            }
            insert_seed(&mut seeds, s3, Ghost(img), Ghost(ki));
            proof {
                let g4 = seeds@;
                assert forall|p: Seq<u8>| pixels_present(g0, p)
                    implies pixels_present(g4, p) by {
                    assert(pixels_present(g1, p));
                    assert(pixels_present(g2, p));
                    assert(pixels_present(g3, p));
                };
                assert(pixels_present(g4, rot_pixels(cell, ki, 0))) by {
                    assert(pixels_present(g1, rot_pixels(cell, ki, 0)));
                    assert(pixels_present(g2, rot_pixels(cell, ki, 0)));
                    assert(pixels_present(g3, rot_pixels(cell, ki, 0)));
                };
                assert(pixels_present(g4, rot_pixels(cell, ki, 1))) by {
                    assert(pixels_present(g2, rot_pixels(cell, ki, 1)));
                    assert(pixels_present(g3, rot_pixels(cell, ki, 1)));
                };
                assert(pixels_present(g4, rot_pixels(cell, ki, 2))) by {
                    assert(pixels_present(g3, rot_pixels(cell, ki, 2)));
                };
                assert(pixels_present(g4, rot_pixels(cell, ki, 3)));
                assert forall|rot: int| 0 <= rot < 4 implies pixels_present(
                    g4, #[trigger] rot_pixels(cell_pixels(img, ki, cx as int, cy as int),
                        ki, rot)) by {
                    if rot == 0 {
                    } else if rot == 1 {
                    } else if rot == 2 {
                    } else {
                        assert(rot == 3);
                    }
                };
                assert(cell_covered(img, ki, g4, cx as int, cy as int));
                assert forall|cx2: int, cy2: int| 0 <= cx2 < cx && 0 <= cy2 < tiles_y
                    implies #[trigger] cell_covered(img, ki, g4, cx2, cy2) by {
                    assert(cell_covered(img, ki, g0, cx2, cy2));
                    assert forall|rot: int| 0 <= rot < 4 implies pixels_present(
                        g4, #[trigger] rot_pixels(cell_pixels(img, ki, cx2, cy2),
                            ki, rot)) by {
                        assert(pixels_present(g0, rot_pixels(cell_pixels(img, ki, cx2, cy2),
                            ki, rot)));
                    };
                };
                assert forall|cy2: int| 0 <= cy2 < cy + 1
                    implies #[trigger] cell_covered(img, ki, g4, cx as int, cy2) by {
                    if cy2 < cy {
                        assert(cell_covered(img, ki, g0, cx as int, cy2));
                        assert forall|rot: int| 0 <= rot < 4 implies pixels_present(
                            g4, #[trigger] rot_pixels(cell_pixels(img, ki, cx as int, cy2),
                                ki, rot)) by {
                            assert(pixels_present(g0, rot_pixels(
                                cell_pixels(img, ki, cx as int, cy2), ki, rot)));
                        };
                    }
                };
                assert(4 * (cx * tiles_y + cy) + 4 == 4 * (cx * tiles_y + (cy + 1)));
            }
            cy += 1;
        }
        proof {
            assert(4 * (cx * tiles_y + tiles_y) == 4 * ((cx + 1) * tiles_y)) by (nonlinear_arith);
        }
        cx += 1;
    }
    proof {
        lemma_sorted_seeds_distinct(seeds@);
        assert(seeds@.len() <= 4 * (tiles_x * tiles_y));
    }
    seeds
}

} // verus!
