use omarchy_arcade::minesweeper::{Arrow, Cell, Difficulty, Game, Status};
use omarchy_arcade::minesweeper_storage::{check_size, check_valid, Record, Save, SaveError};
use rand::rngs::StdRng;
use rand::{Rng, SeedableRng};

#[test]
fn safe_openings_all_presets_and_positions() {
    for d in Difficulty::ALL {
        let (w, h, mines) = d.dimensions();
        for i in [0, w - 1, w * (h - 1), w * h - 1, w * (h / 2) + w / 2] {
            for seed in 0..32 {
                let mut g = Game::new(d);
                g.reveal_cell(i, &mut StdRng::seed_from_u64(seed));
                assert!(g.valid());
                assert_eq!(g.adjacent(i), 0);
                assert_eq!(g.cells.iter().filter(|c| c.mine).count(), mines);
            }
        }
    }
}

#[test]
fn flags_block_reveal_and_flood_and_allow_negative_counter() {
    let mut g = Game::new(Difficulty::Beginner);
    g.flag(1);
    g.reveal_cell(1, &mut StdRng::seed_from_u64(0));
    assert_eq!(g.status, Status::Ready);
    g.reveal_cell(0, &mut StdRng::seed_from_u64(0));
    assert!(!g.cells[1].revealed);
    assert_eq!(g.neighbours(0), vec![1, 9, 10]);
    for i in 0..g.cells.len() {
        if !g.cells[i].revealed && !g.cells[i].flagged {
            g.flag(i);
        }
    }
    assert!(g.remaining() < 0);
    assert!(g.valid());
}

#[test]
fn correct_and_incorrect_chords() {
    let mut rng = StdRng::seed_from_u64(24);
    let mut g = Game::new(Difficulty::Beginner);
    g.reveal_cell(0, &mut rng);
    let i = (0..g.cells.len())
        .find(|&i| {
            g.cells[i].revealed
                && g.adjacent(i) > 0
                && g.neighbours(i)
                    .iter()
                    .any(|&n| !g.cells[n].mine && !g.cells[n].revealed)
        })
        .unwrap();
    let mut bad = g.clone();
    let ns = g.neighbours(i);
    for &n in &ns {
        if g.cells[n].mine {
            g.flag(n);
        }
    }
    g.chord(i);
    assert_ne!(g.status, Status::Lost);
    assert!(g.valid());
    let safe = *ns
        .iter()
        .find(|&&n| !bad.cells[n].mine && !bad.cells[n].revealed)
        .unwrap();
    bad.flag(safe);
    let mines: Vec<_> = ns.iter().copied().filter(|&n| bad.cells[n].mine).collect();
    for &n in mines.iter().skip(1) {
        bad.flag(n);
    }
    bad.chord(i);
    assert_eq!(bad.status, Status::Lost);
    assert!(bad.valid());
    let frozen = bad.clone();
    bad.flag(safe);
    bad.reveal_cell(2, &mut rng);
    bad.chord(i);
    assert_eq!(bad, frozen);
}

#[test]
fn wins_without_flags_and_finished_board_is_frozen() {
    let mut g = Game::new(Difficulty::Expert);
    let mut rng = StdRng::seed_from_u64(3);
    g.reveal_cell(0, &mut rng);
    for i in 0..g.cells.len() {
        if !g.cells[i].mine {
            g.reveal_cell(i, &mut rng);
        }
    }
    assert_eq!(g.status, Status::Won);
    assert!(g.valid());
    let frozen = g.clone();
    g.reveal_cell(10, &mut rng);
    g.flag(0);
    g.chord(0);
    assert_eq!(g, frozen);
}

#[test]
fn arbitrary_actions_preserve_invariants() {
    for d in Difficulty::ALL {
        for seed in 0..50 {
            let mut rng = StdRng::seed_from_u64(seed);
            let mut g = Game::new(d);
            for _ in 0..300 {
                let i = rng.gen_range(0..g.cells.len());
                match rng.gen_range(0..3) {
                    0 => g.flag(i),
                    1 => g.reveal_cell(i, &mut rng),
                    _ => g.chord(i),
                }
                assert!(g.valid());
            }
        }
    }
}

#[test]
fn invalid_state_is_rejected() {
    let mut g = Game::new(Difficulty::Beginner);
    g.cells.pop();
    assert!(!g.valid());
    let mut g = Game::new(Difficulty::Beginner);
    g.cells[0].mine = true;
    assert!(!g.valid());
    let mut g = Game::new(Difficulty::Beginner);
    g.reveal_cell(0, &mut StdRng::seed_from_u64(1));
    g.opening = Some(9999);
    assert!(!g.valid());
}

#[test]
fn dimensions_indices_and_names() {
    assert_eq!(Difficulty::Beginner.dimensions(), (9, 9, 10));
    assert_eq!(Difficulty::Intermediate.dimensions(), (16, 16, 40));
    assert_eq!(Difficulty::Expert.dimensions(), (30, 16, 99));
    assert_eq!(Difficulty::Expert.index(), 2);
    assert_eq!(Difficulty::Intermediate.name(), "Intermediate");
    assert_eq!(Difficulty::default(), Difficulty::Beginner);
}

#[test]
fn neighbours_at_corners_edges_and_off_board() {
    let g = Game::new(Difficulty::Expert);
    assert_eq!(g.neighbours(29), vec![28, 58, 59]);
    assert_eq!(g.neighbours(31), vec![0, 1, 2, 30, 32, 60, 61, 62]);
    assert_eq!(g.neighbours(479), vec![448, 449, 478]);
    assert!(g.neighbours(480).is_empty());
}

#[test]
fn flag_toggles_only_hidden_squares_of_active_games() {
    let mut g = Game::new(Difficulty::Beginner);
    g.flag(5);
    assert!(g.cells[5].flagged);
    g.flag(5);
    assert!(!g.cells[5].flagged);
    g.flag(500);
    assert_eq!(g.remaining(), 10);
    g.status = Status::Lost;
    g.flag(5);
    assert!(!g.cells[5].flagged);
}

#[test]
fn revealing_a_mine_loses_and_marks_the_explosion() {
    let mut g = Game::new(Difficulty::Beginner);
    g.reveal_cell(40, &mut StdRng::seed_from_u64(7));
    let mine = (0..g.cells.len()).find(|&i| g.cells[i].mine).unwrap();
    g.reveal_cell(mine, &mut StdRng::seed_from_u64(7));
    assert_eq!(g.status, Status::Lost);
    assert_eq!(g.exploded, Some(mine));
    assert!(g.valid());
    assert_eq!(
        g.cells.iter().filter(|c| c.mine && c.revealed).count(),
        1
    );
}

#[test]
fn records_count_games_and_wins_once() {
    let mut s = Save::default();
    assert!(s.valid());
    s.game.reveal_cell(0, &mut StdRng::seed_from_u64(1));
    s.account(Status::Ready);
    s.game.elapsed_ms = 14567;
    assert!(s.valid());
    for i in 0..s.game.cells.len() {
        if !s.game.cells[i].mine {
            let before = s.game.status;
            s.game.reveal_cell(i, &mut StdRng::seed_from_u64(1));
            s.account(before);
        }
    }
    assert_eq!(s.records[0].wins, 1);
    assert_eq!(s.records[0].played, 1);
    assert_eq!(s.records[0].best_ms, Some(14567));
    s.account(Status::Won);
    assert_eq!(s.records[0].wins, 1);
    assert!(s.valid());
    assert_eq!(check_valid(&s), Ok(()));
}

#[test]
fn save_rules_refuse_future_oversized_and_inconsistent_documents() {
    let future = Save {
        version: 999,
        ..Default::default()
    };
    assert_eq!(check_valid(&future), Err(SaveError::Invalid));
    assert_eq!(check_size(131072), Ok(()));
    assert_eq!(check_size(131073), Err(SaveError::TooLarge));
    let mut s = Save::default();
    s.records[1] = Record {
        played: 1,
        wins: 2,
        best_ms: Some(5),
    };
    assert!(!s.valid());
    s.records[1] = Record {
        played: 3,
        wins: 1,
        best_ms: None,
    };
    assert!(!s.valid());
    assert_eq!(Cell::default(), Cell { mine: false, revealed: false, flagged: false });
}

/// Play the game in `s` to a win, revealing every safe square in order.
fn win_out(s: &mut Save) {
    for i in 0..s.game.cells.len() {
        if !s.game.cells[i].mine && !s.game.cells[i].revealed {
            let before = s.game.status;
            s.game.reveal_cell(i, &mut StdRng::seed_from_u64(3));
            s.account(before);
        }
    }
}

#[test]
fn accounting_keeps_saves_valid_except_when_wins_already_match_games() {
    let mut s = Save::default();
    s.game.reveal_cell(40, &mut StdRng::seed_from_u64(3));
    s.account(Status::Ready);
    assert!(s.valid());
    win_out(&mut s);
    assert_eq!(s.game.status, Status::Won);
    assert_eq!((s.records[0].played, s.records[0].wins), (1, 1));
    assert!(s.valid());

    // A game in play whose record already shows every game won: the win that
    // follows counts a second win against one game, and the save is refused.
    let mut odd = Save::default();
    odd.game.reveal_cell(40, &mut StdRng::seed_from_u64(3));
    odd.records[0] = Record { played: 1, wins: 1, best_ms: Some(9) };
    assert!(odd.valid());
    win_out(&mut odd);
    assert_eq!((odd.records[0].played, odd.records[0].wins), (1, 2));
    assert_eq!(check_valid(&odd), Err(SaveError::Invalid));
}

#[test]
fn mine_layouts_depend_on_the_generator() {
    let layout = |seed: u64| {
        let mut g = Game::new(Difficulty::Intermediate);
        g.reveal_cell(0, &mut StdRng::seed_from_u64(seed));
        g.cells.iter().map(|c| c.mine).collect::<Vec<bool>>()
    };
    let first = layout(0);
    assert!((1..8).any(|seed| layout(seed) != first));
    assert_eq!(layout(5), layout(5));
}

#[test]
fn ignored_reveals_leave_the_game_and_the_generator_alone() {
    let mut g = Game::new(Difficulty::Beginner);
    g.flag(1);
    let before = g.clone();
    let mut r = StdRng::seed_from_u64(9);
    let mut control = r.clone();
    g.reveal_cell(1, &mut r);
    g.reveal_cell(500, &mut r);
    assert_eq!(g, before);
    assert_eq!(g.status, Status::Ready);
    assert_eq!(r.gen::<u64>(), control.gen::<u64>());
}

#[test]
fn neighbour_lists_are_sorted_and_symmetric() {
    for d in Difficulty::ALL {
        let (w, h, _) = d.dimensions();
        let g = Game::new(d);
        for i in 0..w * h {
            let ns = g.neighbours(i);
            assert!(ns.windows(2).all(|p| p[0] < p[1]));
            assert!([3, 5, 8].contains(&ns.len()));
            for &j in &ns {
                assert!(g.neighbours(j).contains(&i));
            }
        }
    }
}

#[test]
fn a_chord_that_explodes_leaves_a_wrongly_flagged_square_hidden() {
    let mut rng = StdRng::seed_from_u64(24);
    let mut g = Game::new(Difficulty::Beginner);
    g.reveal_cell(0, &mut rng);
    let i = (0..g.cells.len())
        .find(|&i| {
            g.cells[i].revealed
                && g.adjacent(i) > 0
                && g.neighbours(i).iter().any(|&n| !g.cells[n].mine && !g.cells[n].revealed)
        })
        .unwrap();
    let ns = g.neighbours(i);
    let safe = *ns.iter().find(|&&n| !g.cells[n].mine && !g.cells[n].revealed).unwrap();
    g.flag(safe);
    let mines: Vec<usize> = ns.iter().copied().filter(|&n| g.cells[n].mine).collect();
    for &n in mines.iter().skip(1) {
        g.flag(n);
    }
    g.chord(i);
    assert_eq!(g.status, Status::Lost);
    assert!(g.cells[safe].flagged && !g.cells[safe].revealed && !g.cells[safe].mine);
    assert!(g.valid());
}

#[test]
fn plant_mines_the_first_squares_of_the_order() {
    let mut g = Game::new(Difficulty::Beginner);
    let order: Vec<usize> = vec![80, 3, 41, 7, 12, 60, 5, 33, 21, 70, 2, 1];
    g.plant(&order);
    let mined: Vec<usize> = (0..g.cells.len()).filter(|&k| g.cells[k].mine).collect();
    let mut expected = order[..10].to_vec();
    expected.sort();
    assert_eq!(mined, expected);
    let mut few = Game::new(Difficulty::Beginner);
    few.plant(&vec![9, 4]);
    assert_eq!(few.cells.iter().filter(|c| c.mine).count(), 2);
    assert!(few.cells[9].mine && few.cells[4].mine);
    assert_eq!(few.status, Status::Ready);
}

#[test]
fn arrow_keys_move_the_cursor_and_stop_at_the_edges() {
    let d = Difficulty::Beginner;
    assert_eq!(d.cursor_after(0, Arrow::Left), 0);
    assert_eq!(d.cursor_after(0, Arrow::Up), 0);
    assert_eq!(d.cursor_after(0, Arrow::Right), 1);
    assert_eq!(d.cursor_after(0, Arrow::Down), 9);
    assert_eq!(d.cursor_after(8, Arrow::Right), 8);
    assert_eq!(d.cursor_after(9, Arrow::Left), 9);
    assert_eq!(d.cursor_after(10, Arrow::Left), 9);
    assert_eq!(d.cursor_after(80, Arrow::Down), 80);
    assert_eq!(d.cursor_after(75, Arrow::Up), 66);
    let e = Difficulty::Expert;
    assert_eq!(e.cursor_after(479, Arrow::Right), 479);
    assert_eq!(e.cursor_after(449, Arrow::Down), 479);
    for a in [Arrow::Left, Arrow::Right, Arrow::Up, Arrow::Down] {
        for c in 0..480 {
            assert!(e.cursor_after(c, a) < 480);
        }
    }
}
