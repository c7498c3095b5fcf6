use omarchy_arcade::twenty48::{
    empty_squares, over, slide, spawn, spawn_at, valid, won, Direction, Game, Snapshot,
};
use omarchy_arcade::twenty48_storage::{check_size, check_valid, Save, SaveError};
use rand::rngs::StdRng;
use rand::{Rng, SeedableRng};

fn rng() -> StdRng {
    StdRng::seed_from_u64(2048)
}

#[test]
fn classic_merge_once_cases() {
    for (row, expected, score) in [
        ([2, 2, 2, 2], [4, 4, 0, 0], 8),
        ([4, 2, 2, 2], [4, 4, 2, 0], 4),
        ([2, 2, 4, 4], [4, 8, 0, 0], 12),
        ([2, 2, 2, 0], [4, 2, 0, 0], 4),
        ([4, 8, 16, 32], [4, 8, 16, 32], 0),
        ([0, 4, 0, 4], [8, 0, 0, 0], 8),
    ] {
        let mut b = [[0; 4]; 4];
        b[0] = row;
        let t = slide(&b, Direction::Left);
        assert_eq!(t.board[0], expected);
        assert_eq!(t.score_delta, score);
    }
}

#[test]
fn upstream_stuck_128_regression() {
    let b = [
        [2, 128, 2, 32],
        [16, 128, 32, 16],
        [4, 256, 16, 2],
        [2, 2, 0, 4],
    ];
    for d in [Direction::Up, Direction::Down] {
        assert_eq!(slide(&b, d).score_delta, 256);
    }
    let t = slide(&b, Direction::Up);
    assert_eq!([t.board[0][1], t.board[1][1], t.board[2][1]], [256, 256, 2]);
}

#[test]
fn motion_coordinates_follow_each_direction() {
    let b = [[2, 0, 0, 2], [0; 4], [0, 2, 0, 0], [0, 0, 2, 0]];
    for d in [
        Direction::Left,
        Direction::Right,
        Direction::Up,
        Direction::Down,
    ] {
        let t = slide(&b, d);
        let mut sums = [[0; 4]; 4];
        for m in &t.moves {
            assert_eq!(m.value, b[m.from[0]][m.from[1]]);
            sums[m.to[0]][m.to[1]] += m.value;
        }
        assert_eq!(sums, t.board);
    }
}

#[test]
fn invalid_moves_do_not_spawn_score_or_consume_rng() {
    let mut r = rng();
    let mut g = Game::new(&mut r, 0);
    g.board = [
        [2, 4, 8, 16],
        [32, 64, 128, 256],
        [512, 1024, 2, 4],
        [8, 16, 32, 64],
    ];
    let before = g.clone();
    let mut control = r.clone();
    assert!(g.play(Direction::Left, &mut r).is_none());
    assert_eq!(g, before);
    assert_eq!(r.gen::<u64>(), control.gen::<u64>());
}

#[test]
fn starts_with_two_and_spawns_only_in_empty_cells() {
    let mut r = rng();
    let g = Game::new(&mut r, 77);
    assert_eq!(g.board.iter().flatten().filter(|v| **v != 0).count(), 2);
    assert_eq!(g.best, 77);
    let mut b = [[8; 4]; 4];
    b[2][3] = 0;
    assert_eq!(spawn(&mut b, &mut r), Some([2, 3]));
    assert!([2, 4].contains(&b[2][3]));
    assert_eq!(b[1], [8; 4]);
    assert_eq!(spawn(&mut b, &mut r), None);
}

#[test]
fn win_continue_and_undo_preserve_best() {
    let mut r = rng();
    let mut g = Game::new(&mut r, 0);
    g.board = [[1024, 1024, 2, 0], [0; 4], [0; 4], [0; 4]];
    let before = g.board;
    g.play(Direction::Left, &mut r).unwrap();
    assert!(g.win_prompt());
    assert!(g.play(Direction::Right, &mut r).is_none());
    g.keep_going();
    assert!(!g.win_prompt());
    assert!(g.undo());
    assert_eq!(g.board, before);
    assert_eq!(g.score, 0);
    assert_eq!(g.best, 2048);
    assert!(!g.continued);
}

#[test]
fn full_board_needs_adjacent_equals() {
    let mut b = [
        [2, 4, 8, 16],
        [4, 8, 16, 32],
        [8, 16, 32, 64],
        [16, 32, 64, 128],
    ];
    assert!(over(&b));
    b[3][3] = 64;
    assert!(!over(&b));
    b[3][3] = 0;
    assert!(!over(&b));
}

#[test]
fn rapid_moves_remain_authoritative_and_history_bounded() {
    let mut r = rng();
    let mut g = Game::new(&mut r, 0);
    for _ in 0..100 {
        for d in [
            Direction::Left,
            Direction::Down,
            Direction::Right,
            Direction::Up,
        ] {
            if let Some(t) = g.play(d, &mut r) {
                assert_eq!(t.board, g.board);
            }
            assert!(g.valid());
            assert!(g.history.len() <= 20);
        }
    }
    let n = g.history.len();
    for _ in 0..n {
        assert!(g.undo());
    }
    assert!(!g.undo());
}

#[test]
fn bad_tiles_are_rejected() {
    let mut g = Game::new(&mut rng(), 0);
    g.board[0][0] = 3;
    assert!(!g.valid());
    g.board[0][0] = u64::MAX;
    assert!(!g.valid());
}

#[test]
fn slide_right_packs_towards_the_right_edge() {
    let mut b = [[0; 4]; 4];
    b[1] = [2, 2, 2, 0];
    let t = slide(&b, Direction::Right);
    assert_eq!(t.board[1], [0, 0, 2, 4]);
    assert_eq!(t.merges, vec![[1, 3]]);
    assert_eq!(t.score_delta, 4);
    assert!(t.moved);
}

#[test]
fn max_tiles_never_merge() {
    let big = 1u64 << 32;
    let mut b = [[0; 4]; 4];
    b[0] = [big, big, 0, 0];
    b[3][3] = 2;
    let t = slide(&b, Direction::Left);
    assert_eq!(t.board[0], [big, big, 0, 0]);
    assert_eq!(t.score_delta, 0);
}

#[test]
fn won_and_validity_of_boards() {
    let mut b = [[0; 4]; 4];
    assert!(!valid(&b));
    b[0][0] = 2;
    assert!(!valid(&b));
    b[2][1] = 4;
    assert!(valid(&b));
    assert!(!won(&b));
    b[3][3] = 2048;
    assert!(won(&b));
    b[3][3] = 6;
    assert!(!valid(&b));
}

#[test]
fn undo_at_history_limit_restores_the_previous_board() {
    let mut r = rng();
    let mut g = Game::new(&mut r, 0);
    g.history = vec![
        Snapshot {
            board: [[2, 2, 0, 0], [0; 4], [0; 4], [0; 4]],
            score: 0
        };
        20
    ];
    g.board = [[2, 0, 0, 0], [2, 0, 0, 0], [0; 4], [0; 4]];
    let before = g.board;
    g.play(Direction::Up, &mut r).unwrap();
    assert_eq!(g.history.len(), 20);
    assert_eq!(g.score, 4);
    assert!(g.undo());
    assert_eq!(g.board, before);
    assert_eq!(g.score, 0);
    assert_eq!(g.best, 4);
}

#[test]
fn save_rules() {
    let g = Game::new(&mut rng(), 5);
    let mut s = Save::new(g);
    assert_eq!(s.version, 1);
    assert!(!s.reduced_motion);
    assert_eq!(check_valid(&s), Ok(()));
    s.version = 2;
    assert_eq!(check_valid(&s), Err(SaveError::Invalid));
    assert_eq!(check_size(65536), Ok(()));
    assert_eq!(check_size(65537), Err(SaveError::TooLarge));
}

#[test]
fn slides_keep_every_line_sum() {
    let b = [
        [2, 2, 4, 8],
        [0, 16, 16, 0],
        [4, 0, 4, 4],
        [2, 4, 8, 16],
    ];
    for d in [Direction::Left, Direction::Right] {
        let t = slide(&b, d);
        for r in 0..4 {
            let before: u64 = b[r].iter().sum();
            let after: u64 = t.board[r].iter().sum();
            assert_eq!(before, after);
        }
    }
    for d in [Direction::Up, Direction::Down] {
        let t = slide(&b, d);
        for c in 0..4 {
            let before: u64 = (0..4).map(|r| b[r][c]).sum();
            let after: u64 = (0..4).map(|r| t.board[r][c]).sum();
            assert_eq!(before, after);
        }
    }
    assert_eq!(slide(&b, Direction::Left).board[0], [4, 4, 8, 0]);
}

#[test]
fn spawns_vary_in_place_and_mostly_bring_twos() {
    let mut places = std::collections::BTreeSet::new();
    let (mut twos, mut fours) = (0, 0);
    for seed in 0..400 {
        let mut b = [[0; 4]; 4];
        let at = spawn(&mut b, &mut StdRng::seed_from_u64(seed)).unwrap();
        places.insert(at);
        match b[at[0]][at[1]] {
            2 => twos += 1,
            4 => fours += 1,
            v => panic!("unexpected tile {v}"),
        }
        assert_eq!(b.iter().flatten().filter(|v| **v != 0).count(), 1);
    }
    assert!(places.len() > 8);
    assert!(fours > 0 && twos > 4 * fours);
}

#[test]
fn right_and_up_are_left_on_the_mirrored_and_transposed_board() {
    let boards = [
        [[2, 2, 4, 8], [0, 16, 16, 0], [4, 0, 4, 4], [2, 4, 8, 16]],
        [[0, 0, 2, 2], [4, 4, 4, 4], [8, 0, 0, 8], [2, 4, 2, 4]],
    ];
    for b in boards {
        let mut m = [[0; 4]; 4];
        let mut t = [[0; 4]; 4];
        for r in 0..4 {
            for c in 0..4 {
                m[r][c] = b[r][3 - c];
                t[r][c] = b[c][r];
            }
        }
        let right = slide(&b, Direction::Right);
        let left_m = slide(&m, Direction::Left);
        let up = slide(&b, Direction::Up);
        let left_t = slide(&t, Direction::Left);
        for r in 0..4 {
            for c in 0..4 {
                assert_eq!(right.board[r][c], left_m.board[r][3 - c]);
                assert_eq!(up.board[r][c], left_t.board[c][r]);
            }
        }
        assert_eq!(right.score_delta, left_m.score_delta);
        assert_eq!(up.score_delta, left_t.score_delta);
    }
}

#[test]
fn spawn_on_a_full_board_draws_nothing() {
    let mut b = [[2; 4]; 4];
    let mut r = rng();
    let mut control = r.clone();
    assert_eq!(spawn(&mut b, &mut r), None);
    assert_eq!(r.gen::<u64>(), control.gen::<u64>());
}

#[test]
fn spawn_at_puts_the_chosen_tile_on_the_picked_empty_square() {
    let b = [[2, 0, 2, 2], [2, 2, 2, 2], [2, 2, 2, 0], [0, 2, 2, 2]];
    assert_eq!(empty_squares(&b), vec![[0, 1], [2, 3], [3, 0]]);
    let mut four = b;
    assert_eq!(spawn_at(&mut four, 1, false), [2, 3]);
    assert_eq!(four[2][3], 4);
    assert_eq!(four[0][1], 0);
    let mut two = b;
    assert_eq!(spawn_at(&mut two, 2, true), [3, 0]);
    assert_eq!(two[3][0], 2);
    assert_eq!(two[2], b[2]);
}
