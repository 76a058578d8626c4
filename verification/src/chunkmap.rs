use vstd::prelude::*;

use crate::tiletype::TileType;

verus! {

pub const MAPWIDTH: usize = 63;

pub const MAPHEIGHT: usize = 63;

pub const MAPCOUNT: usize = MAPHEIGHT * MAPWIDTH;

/// The tile symbol a schematic glyph stands for, if it is recognized.
pub open spec fn glyph_tile(c: char) -> Option<TileType> {
    if c == '┌' {
        Some(TileType::CornerTL)
    } else if c == '┐' {
        Some(TileType::CornerTR)
    } else if c == '┘' {
        Some(TileType::CornerBR)
    } else if c == '└' {
        Some(TileType::CornerBL)
    } else if c == '│' {
        Some(TileType::WallL)
    } else if c == '─' {
        Some(TileType::WallT)
    } else if c == '┆' {
        Some(TileType::WallR)
    } else if c == '┄' {
        Some(TileType::WallB)
    } else if c == ' ' {
        Some(TileType::Floor)
    } else {
        None
    }
}

/// The tile symbols of all recognized glyphs, in reading order; everything
/// else, line breaks included, is silently skipped.
pub open spec fn glyph_tiles(s: Seq<char>) -> Seq<TileType>
    decreases s.len(),
{
    if s.len() == 0 {
        Seq::empty()
    } else {
        glyph_tiles(s.drop_last()) + match glyph_tile(s.last()) {
            Some(t) => seq![t],
            None => Seq::empty(),
        }
    }
}

/// Where the first carriage-return/line-feed pair begins, or the length of
/// the text when there is none: the width of the first schematic line.
pub open spec fn first_break(s: Seq<char>) -> int
    decreases s.len(),
{
    if s.len() >= 2 && s[0] == '\r' && s[1] == '\n' {
        0
    } else if s.len() == 0 {
        0
    } else {
        1 + first_break(s.drop_first())
    }
}

/// How many carriage-return/line-feed separators the text holds; one more
/// than this is the number of schematic lines.
pub open spec fn crlf_count(s: Seq<char>) -> int
    decreases s.len(),
{
    if s.len() < 2 {
        0
    } else if s[0] == '\r' && s[1] == '\n' {
        1 + crlf_count(s.skip(2))
    } else {
        crlf_count(s.drop_first())
    }
}

/// The exec mirror of [`glyph_tile`].
fn glyph(c: char) -> (r: Option<TileType>)
    ensures
        r == glyph_tile(c),
{
    match c {
        '┌' => Some(TileType::CornerTL),
        '┐' => Some(TileType::CornerTR),
        '┘' => Some(TileType::CornerBR),
        '└' => Some(TileType::CornerBL),
        '│' => Some(TileType::WallL),
        '─' => Some(TileType::WallT),
        '┆' => Some(TileType::WallR),
        '┄' => Some(TileType::WallB),
        ' ' => Some(TileType::Floor),
        _ => None,
    }
}

/// The characters of a string, in order.
fn string_chars(s: &str) -> (r: Vec<char>)
    ensures
        r@ == s@,
{
    broadcast use vstd::string::axiom_spec_iter;

    let mut r: Vec<char> = Vec::new();
    for c in it: s.chars()
        invariant
            r@.len() == it.index(),
            forall|j: int| 0 <= j < r@.len() ==> r@[j] == it.seq()[j],
    {
        r.push(c);
    }
    proof {
        assert(r@ =~= s@);
    }
    r
}

/// An element-for-element copy of a tile grid.
pub fn copy_tiles(v: &Vec<TileType>) -> (r: Vec<TileType>)
    ensures
        r@ == v@,
{
    let mut r: Vec<TileType> = Vec::new();
    let mut i: usize = 0;
    while i < v.len()
        invariant
            i <= v.len(),
            r@ =~= v@.take(i as int),
        decreases v.len() - i,
    {
        r.push(v[i]);
        i += 1;
    }
    proof {
        assert(r@ =~= v@);
    }
    r
}

/// A grid of tile symbols: the textual map model.
#[derive(Debug, Default)]
pub struct ChunkMap {
    pub tiles: Vec<TileType>,
    pub width: i32,
    pub height: i32,
}

impl Clone for ChunkMap {
    /// A clone keeps every cell and the dimensions.
    fn clone(&self) -> (r: Self)
        ensures
            r.tiles@ == self.tiles@,
            r.width == self.width,
            r.height == self.height,
    {
        ChunkMap { tiles: copy_tiles(&self.tiles), width: self.width, height: self.height }
    }
}

impl ChunkMap {
    /// A well-formed map has positive extent and one symbol per cell.
    pub open spec fn wf(self) -> bool {
        &&& 1 <= self.width
        &&& 1 <= self.height
        &&& self.tiles@.len() == self.width * self.height
    }

    /// The default 63 x 63 map, entirely empty.
    pub fn new() -> (r: Self)
        ensures
            r.wf(),
            r.width == MAPWIDTH as i32,
            r.height == MAPHEIGHT as i32,
            r.tiles@.len() == MAPCOUNT,
            forall|i: int| 0 <= i < r.tiles@.len() ==> r.tiles@[i] == TileType::Empty,
    {
        let mut tiles: Vec<TileType> = Vec::new();
        let mut i: usize = 0;
        while i < MAPCOUNT
            invariant
                i <= MAPCOUNT,
                tiles@.len() == i,
                forall|k: int| 0 <= k < i ==> tiles@[k] == TileType::Empty,
            decreases MAPCOUNT - i,
        {
            let ghost prev = tiles@;
            tiles.push(TileType::Empty);
            proof {
                assert forall|k: int| 0 <= k < i + 1 implies tiles@[k] == TileType::Empty by {
                    if k < i {
                        assert(tiles@[k] == prev[k]);
                    }
                };
            }
            i += 1;
        }
        ChunkMap { tiles, width: MAPWIDTH as i32, height: MAPHEIGHT as i32 }
    }

    /// Parse a schematic: the width is the length of the first line, the
    /// height the number of lines, and every recognized glyph becomes one
    /// tile symbol, in reading order.  Unrecognized characters are skipped.
    pub fn from_string(string: String) -> (r: Self)
        requires
            string@.len() <= i32::MAX,
        ensures
            r.tiles@ == glyph_tiles(string@),
            r.width == first_break(string@),
            r.height == crlf_count(string@) + 1,
    {
        let cs = string_chars(string.as_str());
        let ghost s = string@;

        let mut tiles: Vec<TileType> = Vec::new();
        let mut i: usize = 0;
        while i < cs.len()
            invariant
                i <= cs@.len(),
                cs@ == s,
                tiles@ == glyph_tiles(s.take(i as int)),
            decreases cs.len() - i,
        {
            proof {
                assert(s.take(i + 1).drop_last() =~= s.take(i as int));
                assert(s.take(i + 1).last() == s[i as int]);
            }
            match glyph(cs[i]) {
                Some(t) => {
                    tiles.push(t);
                    proof {
                        assert(tiles@ =~= glyph_tiles(s.take(i + 1)));
                    }
                },
                None => {
                    proof {
                        assert(tiles@ =~= glyph_tiles(s.take(i + 1)));
                    }
                },
            }
            i += 1;
        }
        proof {
            assert(s.take(s.len() as int) =~= s);
        }

        let mut width: usize = cs.len();
        let mut j: usize = 0;
        let mut found: bool = false;
        while j < cs.len() && !found
            invariant
                j <= cs@.len(),
                cs@ == s,
                !found ==> width == cs@.len(),
                !found ==> first_break(s) == j + first_break(s.skip(j as int)),
                found ==> first_break(s) == width && width <= s.len(),
            decreases cs.len() - j + (if found { 0int } else { 1int }),
        {
            proof {
                assert(s.skip(j as int)[0] == s[j as int]);
                if j + 1 < s.len() {
                    assert(s.skip(j as int)[1] == s[j + 1]);
                }
                assert(s.skip(j as int).drop_first() =~= s.skip(j + 1));
            }
            if j + 1 < cs.len() && cs[j] == '\r' && cs[j + 1] == '\n' {
                width = j;
                found = true;
            } else {
                j += 1;
            }
        }
        proof {
            if !found {
                assert(s.skip(s.len() as int).len() == 0);
            }
        }

        let mut count: usize = 0;
        let mut p: usize = 0;
        while p < cs.len()
            invariant
                p <= cs@.len(),
                cs@ == s,
                2 * count <= p,
                count + crlf_count(s.skip(p as int)) == crlf_count(s),
            decreases cs.len() - p,
        {
            proof {
                assert(s.skip(p as int)[0] == s[p as int]);
                if p + 1 < s.len() {
                    assert(s.skip(p as int)[1] == s[p + 1]);
                    assert(s.skip(p as int).skip(2) =~= s.skip(p + 2));
                }
                assert(s.skip(p as int).drop_first() =~= s.skip(p + 1));
            }
            if p + 1 < cs.len() && cs[p] == '\r' && cs[p + 1] == '\n' {
                count = count + 1;
                p = p + 2;
            } else {
                p = p + 1;
            }
        }
        proof {
            assert(s.skip(p as int).len() < 2);
            vstd::arithmetic::div_mod::lemma_mod_pos_bound(0, 1);
            lemma_first_break_bound(s);
            lemma_crlf_count_bound(s);
        }

        ChunkMap { tiles, width: width as i32, height: (count + 1) as i32 }
    }

    /// The flat index of grid coordinates, row-major.
    pub fn xy_idx(&self, x: i32, y: i32) -> (r: usize)
        requires
            self.wf(),
            0 <= x < self.width,
            0 <= y < self.height,
        ensures
            r == y * self.width + x,
            r < self.tiles@.len(),
    {
        let n = self.tiles.len();
        proof {
            assert(y * self.width + x < self.width * self.height) by (nonlinear_arith)
                requires
                    0 <= x < self.width,
                    0 <= y < self.height,
            ;
            assert(0 <= y * self.width) by (nonlinear_arith)
                requires 0 <= y && 0 < self.width;
        }
        (y as usize * self.width as usize) + x as usize
    }
}

/// The first break comes no later than the end of the text.
proof fn lemma_first_break_bound(s: Seq<char>)
    ensures
        0 <= first_break(s) <= s.len(),
    decreases s.len(),
{
    if !(s.len() >= 2 && s[0] == '\r' && s[1] == '\n') && s.len() > 0 {
        lemma_first_break_bound(s.drop_first());
    }
}

/// There are no more separators than characters.
proof fn lemma_crlf_count_bound(s: Seq<char>)
    ensures
        0 <= crlf_count(s) <= s.len(),
    decreases s.len(),
{
    if s.len() >= 2 {
        if s[0] == '\r' && s[1] == '\n' {
            lemma_crlf_count_bound(s.skip(2));
        } else {
            lemma_crlf_count_bound(s.drop_first());
        }
    }
}

} // verus!
