//! An early, plain shape of a game: the block dimensions together with
//! the full symbol alphabet.
use vstd::prelude::*;

pub mod setting;

verus! {

#[derive(Debug)]
pub struct Game {
    pub block_height: u8,
    pub block_width: u8,
    pub answer_candidate: Vec<u8>,
}

impl Game {
    pub fn new(setting: setting::GameSetting) -> (r: Game)
        requires
            setting.block_height * setting.block_width <= 255,
        ensures
            r.block_height == setting.block_height,
            r.block_width == setting.block_width,
            r.answer_candidate@.len() == setting.block_height * setting.block_width,
            forall|i: int|
                0 <= i < r.answer_candidate@.len() ==> #[trigger] r.answer_candidate@[i] == i + 1,
    {
        let side: u8 = setting.block_height * setting.block_width;
        let mut answer_candidate: Vec<u8> = Vec::new();
        let mut v: u16 = 1;
        while v <= side as u16
            invariant
                1 <= v <= side as u16 + 1,
                side <= 255,
                answer_candidate@.len() == v - 1,
                forall|i: int|
                    0 <= i < answer_candidate@.len() ==> #[trigger] answer_candidate@[i] == i + 1,
            decreases side as int + 1 - v,
        {
            answer_candidate.push(v as u8);
            v = v + 1;
        }
        Game {
            block_height: setting.block_height,
            block_width: setting.block_width,
            answer_candidate,
        }
    }
}

} // verus!
