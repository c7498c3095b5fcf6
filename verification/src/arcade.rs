//! The arcade's collection shelf: which games it offers, in which order, their
//! identifiers, titles and taglines, and keyboard selection on the shelf.
use vstd::prelude::*;

verus! {

#[derive(Clone, Copy, Debug, PartialEq, Eq, Structural)]
pub enum Game {
    Chess,
    Solitaire,
    Scram,
    Invaders,
    Pinball,
    Stack,
    Snake,
    Bubble,
    Blast,
    TwentyFortyEight,
    Shatter,
    Tanks,
    Minesweeper,
}

/// The number of games on the shelf.
pub const SHELF_LEN: usize = 13;

/// The game at position `k` of the shelf.
pub open spec fn shelf_at(k: int) -> Game {
    if k == 0 {
        Game::Pinball
    } else if k == 1 {
        Game::Solitaire
    } else if k == 2 {
        Game::Scram
    } else if k == 3 {
        Game::Invaders
    } else if k == 4 {
        Game::Chess
    } else if k == 5 {
        Game::Stack
    } else if k == 6 {
        Game::Snake
    } else if k == 7 {
        Game::Bubble
    } else if k == 8 {
        Game::Blast
    } else if k == 9 {
        Game::TwentyFortyEight
    } else if k == 10 {
        Game::Shatter
    } else if k == 11 {
        Game::Tanks
    } else {
        Game::Minesweeper
    }
}

/// The identifier used on the command line (`--game`).
pub open spec fn id_of(g: Game) -> Seq<char> {
    match g {
        Game::Stack => "stack"@,
        Game::Chess => "chess"@,
        Game::Solitaire => "solitaire"@,
        Game::Scram => "scram"@,
        Game::Invaders => "invaders"@,
        Game::Pinball => "pinball"@,
        Game::Snake => "snake"@,
        Game::Bubble => "bubble"@,
        Game::Blast => "blast"@,
        Game::TwentyFortyEight => "2048"@,
        Game::Tanks => "tanks"@,
        Game::Minesweeper => "minesweeper"@,
        Game::Shatter => "shatter"@,
    }
}

/// The first shelf position at or after `k` whose identifier is `id`.
pub open spec fn find_id(id: Seq<char>, k: int) -> Option<Game>
    decreases SHELF_LEN - k,
{
    if k < 0 || k >= SHELF_LEN {
        None
    } else if id_of(shelf_at(k)) == id {
        Some(shelf_at(k))
    } else {
        find_id(id, k + 1)
    }
}

impl Game {
    /// The shelf, in display order.
    pub const ALL: [Game; 13] = [
        Game::Pinball,
        Game::Solitaire,
        Game::Scram,
        Game::Invaders,
        Game::Chess,
        Game::Stack,
        Game::Snake,
        Game::Bubble,
        Game::Blast,
        Game::TwentyFortyEight,
        Game::Shatter,
        Game::Tanks,
        Game::Minesweeper,
    ];

    /// The game at shelf position `k`.
    pub fn at(k: usize) -> (g: Game)
        requires
            k < SHELF_LEN,
        ensures
            g == shelf_at(k as int),
    {
        match k {
            0 => Game::Pinball,
            1 => Game::Solitaire,
            2 => Game::Scram,
            3 => Game::Invaders,
            4 => Game::Chess,
            5 => Game::Stack,
            6 => Game::Snake,
            7 => Game::Bubble,
            8 => Game::Blast,
            9 => Game::TwentyFortyEight,
            10 => Game::Shatter,
            11 => Game::Tanks,
            _ => Game::Minesweeper,
        }
    }

    /// The shelf position of this game.
    pub fn position(self) -> (k: usize)
        ensures
            k < SHELF_LEN,
            shelf_at(k as int) == self,
    {
        match self {
            Game::Pinball => 0,
            Game::Solitaire => 1,
            Game::Scram => 2,
            Game::Invaders => 3,
            Game::Chess => 4,
            Game::Stack => 5,
            Game::Snake => 6,
            Game::Bubble => 7,
            Game::Blast => 8,
            Game::TwentyFortyEight => 9,
            Game::Shatter => 10,
            Game::Tanks => 11,
            Game::Minesweeper => 12,
        }
    }

    pub fn id(self) -> (r: &'static str)
        ensures
            r@ == id_of(self),
    {
        match self {
            Self::Stack => "stack",
            Self::Chess => "chess",
            Self::Solitaire => "solitaire",
            Self::Scram => "scram",
            Self::Invaders => "invaders",
            Self::Pinball => "pinball",
            Self::Snake => "snake",
            Self::Bubble => "bubble",
            Self::Blast => "blast",
            Self::TwentyFortyEight => "2048",
            Self::Tanks => "tanks",
            Self::Minesweeper => "minesweeper",
            Self::Shatter => "shatter",
        }
    }

    /// The title shown on the shelf and in the window title.
    pub fn name(self) -> (r: &'static str)
        ensures
            r@ == match self {
                Game::Stack => "Stack"@,
                Game::Chess => "Chess"@,
                Game::Solitaire => "Solitaire"@,
                Game::Scram => "Scram"@,
                Game::Invaders => "Invaders"@,
                Game::Pinball => "Circuit Pinball"@,
                Game::Snake => "Snake"@,
                Game::Bubble => "Bubble"@,
                Game::Blast => "Blast"@,
                Game::TwentyFortyEight => "2048"@,
                Game::Tanks => "Tanks"@,
                Game::Minesweeper => "Minesweeper"@,
                Game::Shatter => "Shatter"@,
            },
    {
        match self {
            Self::Stack => "Stack",
            Self::Chess => "Chess",
            Self::Solitaire => "Solitaire",
            Self::Scram => "Scram",
            Self::Invaders => "Invaders",
            Self::Pinball => "Circuit Pinball",
            Self::Snake => "Snake",
            Self::Bubble => "Bubble",
            Self::Blast => "Blast",
            Self::TwentyFortyEight => "2048",
            Self::Tanks => "Tanks",
            Self::Minesweeper => "Minesweeper",
            Self::Shatter => "Shatter",
        }
    }

    /// The one-line tagline shown on the shelf.
    pub fn line(self) -> (r: &'static str)
        ensures
            r@ == match self {
                Game::Stack => "Make room. Go again."@,
                Game::Chess => "Take your time. Make your move."@,
                Game::Solitaire => "A quiet hand of Klondike."@,
                Game::Scram => "Keep moving. They are behind you."@,
                Game::Invaders => "Hold the line. Clear the sky."@,
                Game::Pinball => "One more ball. One more high score."@,
                Game::Snake => "Eat. Grow. Leave yourself a way out."@,
                Game::Bubble => "Make three. Clear your head."@,
                Game::Blast => "Make room. Leave an exit."@,
                Game::TwentyFortyEight => "Slide together. Make something bigger."@,
                Game::Tanks => "Read the wind. Change the landscape."@,
                Game::Minesweeper => "Read the field. Trust your next move."@,
                Game::Shatter => "Find your angle. Break through."@,
            },
    {
        match self {
            Self::Stack => "Make room. Go again.",
            Self::Chess => "Take your time. Make your move.",
            Self::Solitaire => "A quiet hand of Klondike.",
            Self::Scram => "Keep moving. They are behind you.",
            Self::Invaders => "Hold the line. Clear the sky.",
            Self::Pinball => "One more ball. One more high score.",
            Self::Snake => "Eat. Grow. Leave yourself a way out.",
            Self::Bubble => "Make three. Clear your head.",
            Self::Blast => "Make room. Leave an exit.",
            Self::TwentyFortyEight => "Slide together. Make something bigger.",
            Self::Tanks => "Read the wind. Change the landscape.",
            Self::Minesweeper => "Read the field. Trust your next move.",
            Self::Shatter => "Find your angle. Break through.",
        }
    }

    /// The game named by a command-line identifier, if any.
    pub fn from_id(id: &str) -> (r: Option<Game>)
        ensures
            r == find_id(id@, 0),
    {
        let wanted = id.to_owned();
        let mut k: usize = 0;
        while k < SHELF_LEN
            invariant
                0 <= k <= SHELF_LEN,
                wanted@ == id@,
                find_id(id@, 0) == find_id(id@, k as int),
            decreases SHELF_LEN - k,
        {
            let g = Game::at(k);
            if g.id().to_owned() == wanted {
                return Some(g);
            }
            k = k + 1;
        }
        None
    }
}

/// The selection after moving right or down on the shelf: the next game,
/// wrapping from the last to the first.
pub fn next_selection(selected: usize) -> (r: usize)
    requires
        selected < usize::MAX,
    ensures
        r == (selected + 1) % (SHELF_LEN as int),
{
    (selected + 1) % SHELF_LEN
}

/// The selection after moving left or up: the previous game, wrapping from the
/// first to the last.
pub fn previous_selection(selected: usize) -> (r: usize)
    requires
        selected + SHELF_LEN <= usize::MAX,
    ensures
        r == (selected + SHELF_LEN - 1) % (SHELF_LEN as int),
{
    (selected + SHELF_LEN - 1) % SHELF_LEN
}

/// Moving the shelf selection one step and back returns to where it was.
pub proof fn lemma_selection_round_trip(selected: usize)
    requires
        selected < SHELF_LEN,
    ensures
        (((selected + 1) % (SHELF_LEN as int)) + SHELF_LEN - 1) % (SHELF_LEN as int) == selected,
        ((((selected + SHELF_LEN - 1) % (SHELF_LEN as int)) + 1) % (SHELF_LEN as int)) == selected,
{
}

/// Every identifier finds its own game: no two games share an identifier.
pub proof fn lemma_id_finds_game(g: Game)
    ensures
        find_id(id_of(g), 0) == Some(g),
{
    reveal_strlit("stack");
    reveal_strlit("chess");
    reveal_strlit("solitaire");
    reveal_strlit("scram");
    reveal_strlit("invaders");
    reveal_strlit("pinball");
    reveal_strlit("snake");
    reveal_strlit("bubble");
    reveal_strlit("blast");
    reveal_strlit("2048");
    reveal_strlit("tanks");
    reveal_strlit("minesweeper");
    reveal_strlit("shatter");
    assert forall|h: Game| h != g implies id_of(h) != id_of(g) by {
        if id_of(h) == id_of(g) {
            let a = id_of(h);
            let b = id_of(g);
            assert(a.len() == b.len());
            assert(a[0] == b[0]);
            assert(a[a.len() - 1] == b[b.len() - 1]);
        }
    }
    reveal_with_fuel(find_id, 14);
}

} // verus!
