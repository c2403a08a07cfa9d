//! The plain size configuration belonging to the early game shape.
use vstd::prelude::*;

verus! {

#[derive(Debug)]
pub struct GameSetting {
    pub block_height: u8,
    pub block_width: u8,
}

impl GameSetting {
    pub fn new(block_height: u8, block_width: u8) -> (r: GameSetting)
        ensures
            r.block_height == block_height,
            r.block_width == block_width,
    {
        GameSetting { block_height, block_width }
    }
}

} // verus!
