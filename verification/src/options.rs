//! Board parameters: width, height and mine count, together with the three
//! named difficulty presets.

use vstd::prelude::*;

use crate::arith::lemma_mul_le;

verus! {

/// The parameters a board is generated from: its dimensions and how many
/// mines it holds.
#[derive(Clone, Copy, Debug, PartialEq, Eq, Structural)]
pub struct BoardOptions {
    pub width: u32,
    pub height: u32,
    pub bomb_count: u32,
}

impl BoardOptions {
    /// True when a board can actually be generated from these parameters:
    /// both dimensions are positive, the mine count does not exceed the
    /// number of cells, and the cell array fits in memory.
    pub open spec fn valid(self) -> bool {
        &&& self.width >= 1
        &&& self.height >= 1
        &&& self.bomb_count <= self.width * self.height
        &&& self.width * self.height <= usize::MAX
    }

    pub fn new(width: u32, height: u32, bomb_count: u32) -> (r: BoardOptions)
        ensures
            r == (BoardOptions { width, height, bomb_count }),
    {
        BoardOptions { width, height, bomb_count }
    }

    /// The number of cells on a board with these dimensions.
    pub fn area(&self) -> (r: u64)
        ensures
            r == self.width * self.height,
    {
        proof {
            lemma_mul_le(self.width as int, self.height as int, u32::MAX as int, u32::MAX as int);
        }
        (self.width as u64) * (self.height as u64)
    }

    /// Decides whether these parameters admit a board, exactly as `valid`
    /// states it.
    pub fn check(&self) -> (r: bool)
        ensures
            r == self.valid(),
    {
        proof {
            lemma_mul_le(self.width as int, self.height as int, u32::MAX as int, u32::MAX as int);
        }
        self.width >= 1 && self.height >= 1
            && (self.bomb_count as u64) <= (self.width as u64) * (self.height as u64)
            && (self.width as u64) * (self.height as u64) <= (usize::MAX as u64)
    }
}

impl Default for BoardOptions {
    /// The board used at startup: 9 by 9 with 10 mines.
    fn default() -> (r: BoardOptions)
        ensures
            r == (BoardOptions { width: 9u32, height: 9u32, bomb_count: 10u32 }),
    {
        BoardOptions { width: 9, height: 9, bomb_count: 10 }
    }
}

/// The three named difficulty presets.
#[derive(Clone, Copy, Debug, PartialEq, Eq, Structural)]
pub enum Level {
    Base,
    Pro,
    Expert,
}

impl Level {
    /// The board parameters of each preset.
    pub fn options(&self) -> (r: BoardOptions)
        ensures
            self is Base ==> r == (BoardOptions { width: 9u32, height: 9u32, bomb_count: 10u32 }),
            self is Pro ==> r == (BoardOptions { width: 16u32, height: 16u32, bomb_count: 40u32 }),
            self is Expert ==> r == (BoardOptions { width: 30u32, height: 16u32, bomb_count: 99u32 }),
    {
        match self {
            Level::Base => BoardOptions { width: 9, height: 9, bomb_count: 10 },
            Level::Pro => BoardOptions { width: 16, height: 16, bomb_count: 40 },
            Level::Expert => BoardOptions { width: 30, height: 16, bomb_count: 99 },
        }
    }
}

} // verus!
