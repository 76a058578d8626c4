use vstd::prelude::*;

verus! {

/// A tile symbol of the textual map model.  `Constraint` is the wildcard that
/// matches any symbol when patterns are tested for edge compatibility.
#[derive(PartialEq, Eq, Hash, Copy, Clone, Debug, Structural)]
pub enum TileType {
    Empty,
    Floor,
    Constraint,
    CornerTL,
    CornerTR,
    CornerBR,
    CornerBL,
    WallL,
    WallT,
    WallR,
    WallB,
}

/// Mirror of a tile symbol across a vertical axis: left/right corners and
/// walls swap, everything else is invariant.
pub open spec fn flip_x_spec(tile_type: TileType) -> TileType {
    match tile_type {
        TileType::Empty => TileType::Empty,
        TileType::Floor => TileType::Floor,
        TileType::Constraint => TileType::Constraint,
        TileType::CornerTL => TileType::CornerTR,
        TileType::CornerTR => TileType::CornerTL,
        TileType::CornerBR => TileType::CornerBL,
        TileType::CornerBL => TileType::CornerBR,
        TileType::WallL => TileType::WallR,
        TileType::WallT => TileType::WallT,
        TileType::WallR => TileType::WallL,
        TileType::WallB => TileType::WallB,
    }
}

/// Mirror of a tile symbol across a horizontal axis: top/bottom corners and
/// walls swap, everything else is invariant.
pub open spec fn flip_y_spec(tile_type: TileType) -> TileType {
    match tile_type {
        TileType::Empty => TileType::Empty,
        TileType::Floor => TileType::Floor,
        TileType::Constraint => TileType::Constraint,
        TileType::CornerTL => TileType::CornerBL,
        TileType::CornerTR => TileType::CornerBR,
        TileType::CornerBR => TileType::CornerTR,
        TileType::CornerBL => TileType::CornerTL,
        TileType::WallL => TileType::WallL,
        TileType::WallT => TileType::WallB,
        TileType::WallR => TileType::WallR,
        TileType::WallB => TileType::WallT,
    }
}

pub fn flip_x(tile_type: TileType) -> (r: TileType)
    ensures
        r == flip_x_spec(tile_type),
{
    match tile_type {
        TileType::Empty => TileType::Empty,
        TileType::Floor => TileType::Floor,
        TileType::Constraint => TileType::Constraint,
        TileType::CornerTL => TileType::CornerTR,
        TileType::CornerTR => TileType::CornerTL,
        TileType::CornerBR => TileType::CornerBL,
        TileType::CornerBL => TileType::CornerBR,
        TileType::WallL => TileType::WallR,
        TileType::WallT => TileType::WallT,
        TileType::WallR => TileType::WallL,
        TileType::WallB => TileType::WallB,
    }
}

pub fn flip_y(tile_type: TileType) -> (r: TileType)
    ensures
        r == flip_y_spec(tile_type),
{
    match tile_type {
        TileType::Empty => TileType::Empty,
        TileType::Floor => TileType::Floor,
        TileType::Constraint => TileType::Constraint,
        TileType::CornerTL => TileType::CornerBL,
        TileType::CornerTR => TileType::CornerBR,
        TileType::CornerBR => TileType::CornerTR,
        TileType::CornerBL => TileType::CornerTL,
        TileType::WallL => TileType::WallL,
        TileType::WallT => TileType::WallB,
        TileType::WallR => TileType::WallR,
        TileType::WallB => TileType::WallT,
    }
}

/// Both mirrors are involutions on tile symbols, and they commute.
pub proof fn lemma_flip_symbol_laws(t: TileType)
    ensures
        flip_x_spec(flip_x_spec(t)) == t,
        flip_y_spec(flip_y_spec(t)) == t,
        flip_x_spec(flip_y_spec(t)) == flip_y_spec(flip_x_spec(t)),
{
}

} // verus!
