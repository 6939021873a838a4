use rand::Rng;
use vstd::prelude::*;

pub mod image_drawer;
pub mod maze;
pub mod maze_generator;
pub mod maze_image_builder;
pub mod solver;

use crate::maze_generator::wilson::WilsonGenerator;

verus! {

/// The options of one run of the maze program.
pub struct CommandArgs {
    /// Width of the maze, in cells.
    pub width: usize,
    /// Height of the maze, in cells.
    pub height: usize,
    /// Where the picture is written.
    pub path_out: String,
    /// Print the maze as text instead of writing a picture.
    pub console_print: bool,
    /// Width of one cell, in pixels.
    pub cell_width: u32,
    /// Height of one cell, in pixels.
    pub cell_height: u32,
    /// Draw the solution on the picture.
    pub solve: bool,
    /// Base name of the files that receive the maze and its solution as JSON.
    pub serialize: Option<String>,
    /// Use Wilson's algorithm.
    pub wilson: bool,
    /// Use the other generator.
    pub other: bool,
}

/// The generation algorithms.
#[derive(Clone, Copy, Debug, PartialEq, Eq, Structural)]
pub enum GeneratorType {
    Wilson,
    Other,
}

impl GeneratorType {
    /// The generator type for a draw of `0` or `1`.
    pub fn from_draw(n: u32) -> (r: GeneratorType)
        requires
            n < 2,
        ensures
            n == 0 ==> r == GeneratorType::Wilson,
            n == 1 ==> r == GeneratorType::Other,
    {
        match n {
            0 => GeneratorType::Wilson,
            _ => GeneratorType::Other,
        }
    }
}

/// Relies on rand's `Rng::gen_range` over the thread-local generator: a
/// number drawn from `0..2`.
#[verifier::external_body]
fn random_below_two() -> (r: u32)
    ensures
        r < 2,
{
    rand::thread_rng().gen_range(0..2u32)
}

impl CommandArgs {
    /// The generator asked for, or one drawn at random when none was.
    pub fn get_generator_type(&self) -> (r: GeneratorType)
        ensures
            self.wilson ==> r == GeneratorType::Wilson,
            !self.wilson && self.other ==> r == GeneratorType::Other,
    {
        if self.wilson {
            GeneratorType::Wilson
        } else if self.other {
            GeneratorType::Other
        } else {
            GeneratorType::from_draw(random_below_two())
        }
    }
}

/// The generator for `generator_type`; only Wilson's algorithm exists.
pub fn get_maze_generator(generator_type: GeneratorType) -> (r: WilsonGenerator)
    requires
        generator_type == GeneratorType::Wilson,
{
    WilsonGenerator
}

} // verus!
