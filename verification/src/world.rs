//! The block palette this library places and the ordered record of block
//! writes handed to the world editor.

use vstd::prelude::*;

verus! {

/// Every block kind the road, building and terrain-grading passes place.
#[derive(Clone, Copy, PartialEq, Eq, Structural, Debug)]
pub enum Block {
    Air,
    StoneBricks,
    StoneBrickSlab,
    StoneBrickStairs,
    Cobblestone,
    MossyCobblestone,
    CobblestoneWall,
    Brick,
    PolishedDiorite,
    PolishedAndesite,
    WhiteTerracotta,
    SmoothSandstone,
    SmoothStoneSlab,
    Glass,
    GlassPane,
    GrayStainedGlass,
    LightBlueStainedGlass,
    WhiteConcrete,
    LightGrayConcrete,
    GrayConcrete,
    BlackConcrete,
    RedConcrete,
    BlueConcrete,
    LightBlueConcrete,
    CyanConcrete,
    GreenConcrete,
    YellowConcrete,
}

/// One requested write: put `block` at absolute world position
/// `(x, y, z)`.  The editor applies each write the way its
/// `set_block_absolute` does with neither an override whitelist nor a
/// blacklist.
#[derive(Clone, Copy, PartialEq, Eq, Structural, Debug)]
pub struct BlockWrite {
    pub x: i32,
    pub y: i32,
    pub z: i32,
    pub block: Block,
}

/// The block writes a placement pass issues, in issue order.
pub struct WorldEditor {
    writes: Vec<BlockWrite>,
}

impl View for WorldEditor {
    type V = Seq<BlockWrite>;

    closed spec fn view(&self) -> Seq<BlockWrite> {
        self.writes@
    }
}

/// The write of `block` at `(x, y, z)`.
pub open spec fn write_of(block: Block, x: int, y: int, z: int) -> BlockWrite {
    BlockWrite { x: x as i32, y: y as i32, z: z as i32, block }
}

impl WorldEditor {
    /// An editor with no writes issued yet.
    pub fn new() -> (e: Self)
        ensures
            e@ == Seq::<BlockWrite>::empty(),
    {
        WorldEditor { writes: Vec::new() }
    }

    /// Issues one write.
    pub fn set_block_absolute(&mut self, block: Block, x: i32, y: i32, z: i32)
        ensures
            final(self)@ == old(self)@.push(BlockWrite { x, y, z, block }),
    {
        self.writes.push(BlockWrite { x, y, z, block });
    }

    /// Every write issued so far, in order.
    pub fn writes(&self) -> (w: &[BlockWrite])
        ensures
            w@ == self@,
    {
        self.writes.as_slice()
    }
}

} // verus!
