//! Minesweeper's saved document: the game in progress and one record per
//! difficulty, with the rules a loaded or written document must meet.
use crate::minesweeper::{area, Difficulty, Game, Status};
use vstd::prelude::*;

verus! {

/// The largest save file accepted, in bytes (128 KiB).
pub const SIZE_LIMIT: usize = 131072;

/// The only document version this build reads and writes.
pub const VERSION: u32 = 1;

#[derive(Clone, Copy, Debug, PartialEq, Eq, Structural)]
pub struct Record {
    pub played: u64,
    pub wins: u64,
    pub best_ms: Option<u64>,
}

impl Default for Record {
    fn default() -> (r: Self)
        ensures
            r == (Record { played: 0, wins: 0, best_ms: None }),
    {
        Record { played: 0, wins: 0, best_ms: None }
    }
}

#[derive(Clone, Debug, PartialEq, Eq)]
pub struct Save {
    pub version: u32,
    pub game: Game,
    pub records: [Record; 3],
}

/// Why a save document is refused; the file on disk is left as it is.
#[derive(Clone, Copy, Debug, PartialEq, Eq, Structural)]
pub enum SaveError {
    /// Larger than `SIZE_LIMIT` bytes.
    TooLarge,
    /// An unsupported version, or a state that breaks the game's rules.
    Invalid,
}

pub open spec fn record_index(d: Difficulty) -> int {
    match d {
        Difficulty::Beginner => 0,
        Difficulty::Intermediate => 1,
        Difficulty::Expert => 2,
    }
}

/// A record is consistent: no more wins than games, and a best time exactly
/// when there is a win.
pub open spec fn record_valid(r: Record) -> bool {
    r.wins <= r.played && (r.wins > 0) == r.best_ms.is_some()
}

pub open spec fn bump(v: u64) -> u64 {
    if v == u64::MAX {
        u64::MAX
    } else {
        (v + 1) as u64
    }
}

/// The record after a move that took the game from status `before` to `game`.
pub open spec fn accounted(r: Record, before: Status, game: Game) -> Record {
    let played = if before == Status::Ready && game.status != Status::Ready {
        bump(r.played)
    } else {
        r.played
    };
    if before != Status::Won && game.status == Status::Won {
        Record {
            played,
            wins: bump(r.wins),
            best_ms: Some(
                match r.best_ms {
                    Some(b) => if b <= game.elapsed_ms {
                        b
                    } else {
                        game.elapsed_ms
                    },
                    None => game.elapsed_ms,
                },
            ),
        }
    } else {
        Record { played, ..r }
    }
}

impl Default for Save {
    fn default() -> (s: Self)
        ensures
            s.version == VERSION,
            s.game.difficulty == Difficulty::Beginner,
            s.game.cells@.len() == area(Difficulty::Beginner),
            s.game.status == Status::Ready,
            s.game.valid_spec(),
            forall|k: int| 0 <= k < 3 ==> s.records[k] == (Record { played: 0, wins: 0, best_ms: None }),
    {
        Save {
            version: VERSION,
            game: Game::new(Difficulty::Beginner),
            records: [Record::default(), Record::default(), Record::default()],
        }
    }
}

impl Save {
    pub open spec fn valid_spec(self) -> bool {
        let r = self.records[record_index(self.game.difficulty)];
        &&& self.version == VERSION
        &&& self.game.valid_spec()
        &&& forall|k: int| 0 <= k < 3 ==> record_valid(#[trigger] self.records[k])
        &&& (self.game.status == Status::Ready || r.played > 0)
        &&& (self.game.status != Status::Won || r.wins > 0)
    }

    /// Count a started game once and a win once (keeping the best time), after
    /// a move that took the game from status `before` to its current status.
    pub fn account(&mut self, before: Status)
        ensures
            final(self).version == old(self).version,
            final(self).game == old(self).game,
            forall|k: int|
                0 <= k < 3 ==> #[trigger] final(self).records[k] == if k == record_index(
                    old(self).game.difficulty,
                ) {
                    accounted(old(self).records[k], before, old(self).game)
                } else {
                    old(self).records[k]
                },
    {
        let idx = self.game.difficulty.index();
        let mut r = self.records[idx];
        if before == Status::Ready && self.game.status != Status::Ready {
            r.played = r.played.saturating_add(1);
        }
        if before != Status::Won && self.game.status == Status::Won {
            r.wins = r.wins.saturating_add(1);
            let elapsed = self.game.elapsed_ms;
            r.best_ms = Some(
                match r.best_ms {
                    Some(b) => if b <= elapsed {
                        b
                    } else {
                        elapsed
                    },
                    None => elapsed,
                },
            );
        }
        self.records[idx] = r;
    }

    /// Check the rules of a saved document.
    pub fn valid(&self) -> (r: bool)
        ensures
            r == self.valid_spec(),
    {
        if self.version != VERSION || !self.game.valid() {
            return false;
        }
        let mut k: usize = 0;
        while k < 3
            invariant
                0 <= k <= 3,
                forall|j: int| 0 <= j < k ==> record_valid(#[trigger] self.records[j]),
            decreases 3 - k,
        {
            let r = self.records[k];
            if !(r.wins <= r.played && (r.wins > 0) == r.best_ms.is_some()) {
                return false;
            }
            k = k + 1;
        }
        let r = self.records[self.game.difficulty.index()];
        (self.game.status == Status::Ready || r.played > 0) && (self.game.status != Status::Won
            || r.wins > 0)
    }
}

/// Accounting a second time for the same status changes no record: a started
/// game and a win each count once.
pub proof fn lemma_account_once(r: Record, g: Game)
    ensures
        accounted(r, g.status, g) == r,
{
}

/// Accounting for a move keeps a valid save valid. `prev` is the save before
/// the move and `next` the save after the move and `account`: its game is the
/// move's valid result on the same board, which never goes back to `Ready` and
/// leaves a finished game as it was. The one state that breaks it is left
/// out: a game in play whose record already has as many wins as games, which
/// a win would leave with more wins than games.
pub proof fn lemma_account_keeps_valid(prev: Save, next: Save)
    requires
        prev.valid_spec(),
        next.game.valid_spec(),
        next.version == prev.version,
        next.game.difficulty == prev.game.difficulty,
        prev.game.status != Status::Ready ==> next.game.status != Status::Ready,
        !prev.game.active_spec() ==> next.game.status == prev.game.status,
        forall|k: int|
            0 <= k < 3 ==> #[trigger] next.records[k] == if k == record_index(prev.game.difficulty) {
                accounted(prev.records[k], prev.game.status, next.game)
            } else {
                prev.records[k]
            },
        ({
            let r = prev.records[record_index(prev.game.difficulty)];
            prev.game.status == Status::Playing && next.game.status == Status::Won ==> r.wins
                < r.played || r.wins == u64::MAX
        }),
    ensures
        next.valid_spec(),
{
    let k = record_index(prev.game.difficulty);
    assert(next.records[k] == accounted(prev.records[k], prev.game.status, next.game));
    assert forall|j: int| 0 <= j < 3 implies record_valid(#[trigger] next.records[j]) by {
        assert(record_valid(prev.records[j]));
    }
}

/// A win keeps the fastest time: afterwards the best time is no slower than the
/// winning game nor than the old best, and is one of the two. The games and
/// wins counted only go up, each by at most one.
pub proof fn lemma_win_keeps_fastest(r: Record, before: Status, game: Game)
    ensures
        ({
            let a = accounted(r, before, game);
            &&& a.played >= r.played
            &&& a.played <= r.played + 1
            &&& a.wins >= r.wins
            &&& a.wins <= r.wins + 1
            &&& before != Status::Won && game.status == Status::Won ==> {
                &&& a.best_ms is Some
                &&& a.best_ms.unwrap() <= game.elapsed_ms
                &&& r.best_ms is Some ==> a.best_ms.unwrap() <= r.best_ms.unwrap()
                &&& a.best_ms.unwrap() == game.elapsed_ms || a.best_ms == r.best_ms
            }
            &&& !(before != Status::Won && game.status == Status::Won) ==> a.best_ms == r.best_ms
                && a.wins == r.wins
        }),
{
}

/// Refuse a document read from disk that is larger than the limit.
pub fn check_size(len: usize) -> (r: Result<(), SaveError>)
    ensures
        r == if len > SIZE_LIMIT {
            Err::<(), SaveError>(SaveError::TooLarge)
        } else {
            Ok(())
        },
{
    if len > SIZE_LIMIT {
        Err(SaveError::TooLarge)
    } else {
        Ok(())
    }
}

/// Accept a parsed document only if it keeps the rules; writing uses the same test.
pub fn check_valid(save: &Save) -> (r: Result<(), SaveError>)
    ensures
        r == if save.valid_spec() {
            Ok::<(), SaveError>(())
        } else {
            Err(SaveError::Invalid)
        },
{
    if save.valid() {
        Ok(())
    } else {
        Err(SaveError::Invalid)
    }
}

} // verus!
