//! 2048's saved document: the game with its undo history and best score, and a
//! display preference, with the rules a loaded or written document must meet.
use crate::twenty48::Game;
use vstd::prelude::*;

verus! {

/// The largest save file accepted, in bytes (64 KiB).
pub const SIZE_LIMIT: usize = 65536;

/// The only document version this build reads and writes.
pub const VERSION: u32 = 1;

#[derive(Clone, Debug, PartialEq, Eq)]
pub struct Save {
    pub version: u32,
    pub game: Game,
    pub reduced_motion: bool,
}

/// Why a save document is refused; the file on disk is left as it is.
#[derive(Clone, Copy, Debug, PartialEq, Eq, Structural)]
pub enum SaveError {
    /// Larger than `SIZE_LIMIT` bytes.
    TooLarge,
    /// An unsupported version, or a game that breaks the rules.
    Invalid,
}

impl Save {
    /// A current-version document for `game`, with full motion.
    pub fn new(game: Game) -> (s: Self)
        ensures
            s.version == VERSION,
            s.game == game,
            !s.reduced_motion,
    {
        Self { version: VERSION, game, reduced_motion: false }
    }

    pub open spec fn valid_spec(self) -> bool {
        self.version == VERSION && self.game.valid_spec()
    }

    fn valid(&self) -> (r: bool)
        ensures
            r == self.valid_spec(),
    {
        self.version == VERSION && self.game.valid()
    }
}

/// Refuse a document read from disk that is larger than the limit.
pub fn check_size(len: usize) -> (r: Result<(), SaveError>)
    ensures
        r == if len > SIZE_LIMIT {
            Err::<(), SaveError>(SaveError::TooLarge)
        } else {
            Ok(())
        },
{
    if len > SIZE_LIMIT {
        Err(SaveError::TooLarge)
    } else {
        Ok(())
    }
}

/// Accept a parsed document only if it keeps the rules; writing uses the same test.
pub fn check_valid(save: &Save) -> (r: Result<(), SaveError>)
    ensures
        r == if save.valid_spec() {
            Ok::<(), SaveError>(())
        } else {
            Err(SaveError::Invalid)
        },
{
    if save.valid() {
        Ok(())
    } else {
        Err(SaveError::Invalid)
    }
}

} // verus!
