use vstd::prelude::*;

pub mod binary;
pub mod labyrinth;
pub mod text;

pub use binary::solve_binary;
use labyrinth::{Labyrinth, ParseError, read_maze, turns_out};

verus! {

/// Why a maze has no answer.
#[derive(PartialEq, Eq, Structural, Clone, Copy, Debug)]
pub enum SolveError {
    /// The description was refused.
    Parse(ParseError),
    /// No way leads from the start to the exit.
    NoWayOut,
}

impl SolveError {
    /// A message for the user.
    pub fn message(&self) -> (r: String)
        ensures
            *self == SolveError::NoWayOut ==> r@ == "No way out found"@,
            self is Parse ==> r@ == "An error occurred while parsing the input file"@,
    {
        match self {
            SolveError::Parse(_) => String::from_str("An error occurred while parsing the input file"),
            SolveError::NoWayOut => String::from_str("No way out found"),
        }
    }
}

/// The fewest turns needed to leave the maze that `contents` describes.
pub fn solve_labyrinth(contents: &str) -> (r: Result<u32, SolveError>)
    ensures
        match read_maze(contents@) {
            Err(e) => r == Err::<u32, SolveError>(SolveError::Parse(e)),
            Ok((h, w, paths)) => match turns_out(h, w, paths) {
                Some(n) => r == Ok::<u32, SolveError>(n as u32) && n <= u32::MAX,
                None => r == Err::<u32, SolveError>(SolveError::NoWayOut),
            },
        },
{
    let mut labyrinth = match Labyrinth::from_text(contents) {
        Ok(l) => l,
        Err(e) => return Err(SolveError::Parse(e)),
    };
    match labyrinth.find_way_out() {
        Some(n) => Ok(n),
        None => Err(SolveError::NoWayOut),
    }
}

} // verus!
