use vstd::prelude::*;

verus! {

/// The kinds of block that synthesis places.
#[derive(Clone, Copy, Debug, PartialEq, Eq, Structural)]
pub enum Block {
    StoneBricks,
    Cobblestone,
    Bricks,
    MossyCobblestone,
    WhiteTerracotta,
    BrownTerracotta,
    Sandstone,
    QuartzBlock,
    OakPlanks,
    SprucePlanks,
    BirchPlanks,
    LightGrayConcrete,
    GrayConcrete,
    RedTerracotta,
    WhiteStainedGlass,
    Glowstone,
    SnowLayer,
    OakFence,
    StoneBrickSlab,
    StoneBlockSlab,
    SmoothStone,
    CobblestoneWall,
    Stone,
    DarkOakDoorLower,
    DarkOakDoorUpper,
}

/// One voxel placement. A placement with a non-empty `keep` list is skipped
/// where the voxel already holds one of those blocks.
#[derive(Clone, Debug)]
pub struct VoxelWrite {
    pub block: Block,
    pub x: i64,
    pub y: i64,
    pub z: i64,
    pub keep: Vec<Block>,
}

pub open spec fn corner_catalog() -> Seq<Block> {
    seq![Block::StoneBricks, Block::Cobblestone, Block::Bricks, Block::MossyCobblestone]
}

pub open spec fn wall_catalog() -> Seq<Block> {
    seq![Block::WhiteTerracotta, Block::BrownTerracotta, Block::Sandstone, Block::QuartzBlock, Block::Bricks]
}

pub open spec fn floor_catalog() -> Seq<Block> {
    seq![Block::OakPlanks, Block::SprucePlanks, Block::BirchPlanks, Block::RedTerracotta]
}

/// Corner block variants.
pub fn corner_variations() -> (r: Vec<Block>)
    ensures
        r@ == corner_catalog(),
{
    let r: Vec<Block> = vec![Block::StoneBricks, Block::Cobblestone, Block::Bricks, Block::MossyCobblestone];
    assert(r@ =~= corner_catalog());
    r
}

/// Wall block variants.
pub fn wall_variations() -> (r: Vec<Block>)
    ensures
        r@ == wall_catalog(),
{
    let r: Vec<Block> = vec![Block::WhiteTerracotta, Block::BrownTerracotta, Block::Sandstone, Block::QuartzBlock, Block::Bricks];
    assert(r@ =~= wall_catalog());
    r
}

/// Floor and roof block variants for single dwellings.
pub fn floor_variations() -> (r: Vec<Block>)
    ensures
        r@ == floor_catalog(),
{
    let r: Vec<Block> = vec![Block::OakPlanks, Block::SprucePlanks, Block::BirchPlanks, Block::RedTerracotta];
    assert(r@ =~= floor_catalog());
    r
}

pub open spec fn wall_colors() -> Seq<((u8, u8, u8), Block)> {
    seq![
        ((233u8, 107u8, 57u8), Block::Bricks),
        ((152u8, 94u8, 67u8), Block::BrownTerracotta),
        ((210u8, 178u8, 161u8), Block::WhiteTerracotta),
        ((216u8, 203u8, 155u8), Block::Sandstone),
        ((236u8, 230u8, 223u8), Block::QuartzBlock),
        ((122u8, 122u8, 122u8), Block::StoneBricks),
    ]
}

pub open spec fn floor_colors() -> Seq<((u8, u8, u8), Block)> {
    seq![
        ((143u8, 61u8, 46u8), Block::RedTerracotta),
        ((162u8, 130u8, 78u8), Block::OakPlanks),
        ((114u8, 84u8, 48u8), Block::SprucePlanks),
        ((196u8, 179u8, 123u8), Block::BirchPlanks),
        ((125u8, 125u8, 125u8), Block::LightGrayConcrete),
    ]
}

/// Wall blocks by the colour they show.
pub fn wall_color_map() -> (r: Vec<((u8, u8, u8), Block)>)
    ensures
        r@ == wall_colors(),
{
    let r: Vec<((u8, u8, u8), Block)> = vec![
        ((233u8, 107u8, 57u8), Block::Bricks),
        ((152u8, 94u8, 67u8), Block::BrownTerracotta),
        ((210u8, 178u8, 161u8), Block::WhiteTerracotta),
        ((216u8, 203u8, 155u8), Block::Sandstone),
        ((236u8, 230u8, 223u8), Block::QuartzBlock),
        ((122u8, 122u8, 122u8), Block::StoneBricks),
    ];
    assert(r@ =~= wall_colors());
    r
}

/// Floor and roof blocks by the colour they show.
pub fn floor_color_map() -> (r: Vec<((u8, u8, u8), Block)>)
    ensures
        r@ == floor_colors(),
{
    let r: Vec<((u8, u8, u8), Block)> = vec![
        ((143u8, 61u8, 46u8), Block::RedTerracotta),
        ((162u8, 130u8, 78u8), Block::OakPlanks),
        ((114u8, 84u8, 48u8), Block::SprucePlanks),
        ((196u8, 179u8, 123u8), Block::BirchPlanks),
        ((125u8, 125u8, 125u8), Block::LightGrayConcrete),
    ];
    assert(r@ =~= floor_colors());
    r
}

} // verus!
