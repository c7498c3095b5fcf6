use omarchy_arcade::arcade::{next_selection, previous_selection, Game, SHELF_LEN};
use omarchy_arcade::audio::wav_bytes;
use omarchy_arcade::chase::{
    ChaseEvent, ChasePhase, Countdown, MAX_FAILED_RETRIES, SPAWN_RETRY_TICKS, WARNING_TICKS,
};
use omarchy_arcade::freeski::{
    default_generator_version, default_unlocked_courses, ended, hash, is_ramp, is_ramp_versioned, lesson,
    best_course_time, paused, schema_gate, started, supports_version, toggled_fast_mode,
    unlocked_after, Mode, Phase, SchemaError, ID_STRIDE,
};

#[test]
fn shelf_order_identifiers_and_titles() {
    assert_eq!(Game::ALL.len(), SHELF_LEN);
    assert_eq!(Game::ALL[0], Game::Pinball);
    assert_eq!(Game::ALL[12], Game::Minesweeper);
    for (k, g) in Game::ALL.iter().enumerate() {
        assert_eq!(g.position(), k);
        assert_eq!(Game::at(k), *g);
        assert_eq!(Game::from_id(g.id()), Some(*g));
    }
    assert_eq!(Game::TwentyFortyEight.id(), "2048");
    assert_eq!(Game::Pinball.name(), "Circuit Pinball");
    assert_eq!(Game::Snake.line(), "Eat. Grow. Leave yourself a way out.");
    assert_eq!(Game::from_id("freeski"), None);
}

#[test]
fn shelf_selection_wraps_both_ways() {
    assert_eq!(next_selection(0), 1);
    assert_eq!(next_selection(12), 0);
    assert_eq!(previous_selection(0), 12);
    assert_eq!(previous_selection(5), 4);
}

#[test]
fn run_phases_start_pause_and_end() {
    assert_eq!(started(Phase::Ready), Phase::Running);
    assert_eq!(started(Phase::Paused), Phase::Running);
    assert_eq!(started(Phase::Crashed), Phase::Crashed);
    assert_eq!(paused(Phase::Running), Phase::Paused);
    assert_eq!(paused(Phase::Paused), Phase::Paused);
    assert_eq!(paused(Phase::Ready), Phase::Ready);
    assert!(ended(Phase::Caught) && ended(Phase::Finished) && ended(Phase::Crashed));
    assert!(!ended(Phase::Paused));
    assert_eq!(toggled_fast_mode(Phase::Running, false), Some(true));
    assert_eq!(toggled_fast_mode(Phase::Paused, false), None);
    assert_eq!(Mode::default(), Mode::Practice);
}

#[test]
fn generator_versions_and_ramp_identity() {
    assert!(!supports_version(0));
    assert!(supports_version(1));
    assert!(supports_version(2));
    assert!(!supports_version(3));
    assert_eq!(default_generator_version(), 1);
    assert_eq!(default_unlocked_courses(), 1);
    assert_ne!(hash(7, 1, 2), hash(7, 1, 3));
    assert_eq!(hash(0, 0, 0), 0);
    for seed in 0..16u64 {
        assert!(!is_ramp(seed, 0));
        for chunk in 1..30usize {
            let id = chunk * ID_STRIDE;
            let expected = hash(seed, chunk as u64, 0x0032_4a55_4d50) % 3 == 0;
            assert_eq!(is_ramp(seed, id), expected);
            assert!(!is_ramp(seed, id + 1));
            let v1 = hash(seed, chunk as u64, 0x4a55_4d50) % 3 == 0;
            assert_eq!(is_ramp_versioned(seed, id, 1), v1);
        }
    }
}

#[test]
fn wave_files_have_a_riff_header_and_little_endian_samples() {
    let samples: Vec<i16> = vec![1, -1, 300, -32768];
    let b = wav_bytes(&samples, 22050);
    assert_eq!(b.len(), 44 + 8);
    assert_eq!(&b[..4], b"RIFF");
    assert_eq!(u32::from_le_bytes(b[4..8].try_into().unwrap()), 36 + 8);
    assert_eq!(&b[8..16], b"WAVEfmt ");
    assert_eq!(u32::from_le_bytes(b[24..28].try_into().unwrap()), 22050);
    assert_eq!(u32::from_le_bytes(b[28..32].try_into().unwrap()), 44100);
    assert_eq!(&b[36..40], b"data");
    assert_eq!(u32::from_le_bytes(b[40..44].try_into().unwrap()) as usize, b.len() - 44);
    assert_eq!(&b[44..], &[1, 0, 255, 255, 44, 1, 0, 128]);
}

#[test]
fn practice_lessons_follow_the_slope() {
    assert_eq!(lesson(0).0, "01 / FIND YOUR EDGES");
    assert_eq!(lesson(90).1, "Carve left and right. Hold brake to slow down.");
    assert_eq!(lesson(91).0, "02 / WIDE TURNS");
    assert_eq!(lesson(390).0, "03 / TAKE IT SLOW");
    assert_eq!(lesson(391).1, "The striped ramp launches you. Aim for clear snow.");
    assert_eq!(lesson(950).0, "05 / FIND A RHYTHM");
    assert_eq!(lesson(951).0, "06 / HOME STRETCH");
    assert_eq!(lesson(u32::MAX).1, "Finish at the flags. Your best distance is saved.");
}

#[test]
fn pursuit_warns_once_then_spawns_after_the_warning() {
    let mut c = Countdown::new();
    assert_eq!(ChasePhase::default(), ChasePhase::Dormant);
    assert!(c.valid());
    let (next, event) = c.tick(false, true);
    assert_eq!((next, event), (c, None));
    let (next, event) = c.tick(true, true);
    assert_eq!(event, Some(ChaseEvent::Warning));
    assert_eq!(next.phase, ChasePhase::Warning);
    assert_eq!(next.warning_ticks, WARNING_TICKS);
    c = next;
    let mut warnings = 0;
    for _ in 0..WARNING_TICKS {
        assert!(!c.search_due());
        let (next, event) = c.tick(true, true);
        if event == Some(ChaseEvent::Warning) {
            warnings += 1;
        }
        assert_eq!(event, None);
        c = next;
    }
    assert_eq!(warnings, 0);
    assert!(c.search_due());
    let (next, event) = c.tick(true, true);
    assert_eq!(event, Some(ChaseEvent::Spawned));
    assert_eq!(next.phase, ChasePhase::Active);
    assert!(next.valid());
    assert_eq!(next.tick(true, true), (next, None));
}

#[test]
fn blocked_spawns_retry_after_a_wait_and_count_a_bounded_number_of_failures() {
    let mut c = Countdown {
        phase: ChasePhase::Warning,
        warning_ticks: 0,
        retry_ticks: 0,
        failed_retries: 0,
    };
    for failure in 1..=12u32 {
        assert!(c.search_due());
        let (next, event) = c.tick(true, false);
        assert_eq!(event, None);
        assert_eq!(next.retry_ticks, SPAWN_RETRY_TICKS);
        assert_eq!(u32::from(next.failed_retries), failure.min(u32::from(MAX_FAILED_RETRIES)));
        assert!(next.valid());
        c = next;
        for _ in 0..SPAWN_RETRY_TICKS {
            assert!(!c.search_due());
            c = c.tick(true, false).0;
        }
    }
    let (next, event) = c.tick(true, true);
    assert_eq!(event, Some(ChaseEvent::Spawned));
    assert_eq!(next.failed_retries, 0);
    let broken = Countdown { phase: ChasePhase::Dormant, warning_ticks: 3, retry_ticks: 0, failed_retries: 0 };
    assert!(!broken.valid());
}

#[test]
fn save_versions_are_gated_and_legacy_ones_migrate() {
    assert_eq!(schema_gate(4, 3), Ok(false));
    assert_eq!(schema_gate(3, 2), Ok(true));
    assert_eq!(schema_gate(1, 1), Ok(true));
    assert_eq!(schema_gate(0, 3), Err(SchemaError::Incompatible));
    assert_eq!(schema_gate(5, 3), Err(SchemaError::Incompatible));
    assert_eq!(schema_gate(4, 4), Err(SchemaError::Incompatible));
    assert_eq!(schema_gate(4, 2), Err(SchemaError::Inconsistent));
    assert_eq!(schema_gate(2, 3), Err(SchemaError::Inconsistent));
}

#[test]
fn finished_courses_keep_the_best_time_and_unlock_the_next() {
    assert_eq!(best_course_time(None, 3000), Some(3000));
    assert_eq!(best_course_time(Some(2100), 3000), Some(2100));
    assert_eq!(best_course_time(Some(3600), 3000), Some(3000));
    assert_eq!(unlocked_after(1, 0, 5), 2);
    assert_eq!(unlocked_after(4, 0, 5), 4);
    assert_eq!(unlocked_after(4, 4, 5), 5);
}
