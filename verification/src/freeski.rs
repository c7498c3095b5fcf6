//! Free Ski rules that need no physics: run modes and phases, the stable
//! obstacle identities of the endless mountain, and the save defaults.
use vstd::prelude::*;

verus! {

/// The newest endless terrain generator; generator 1 stays reproducible.
pub const GENERATOR_VERSION: u32 = 2;

/// Endless obstacle IDs: `chunk * ID_STRIDE + slot`.
pub const ID_STRIDE: usize = 64;

/// The slot of a chunk's optional ramp.
pub const RAMP_SLOT: usize = 0;

pub const RULES_VERSION: u32 = 3;

#[derive(Clone, Copy, Debug, PartialEq, Eq, Structural)]
pub enum Mode {
    Practice,
    FreeSki,
    Slalom,
}

impl Default for Mode {
    fn default() -> (r: Self)
        ensures
            r == Mode::Practice,
    {
        Mode::Practice
    }
}

/// What a simulation tick reports, for the session's sounds and messages.
#[derive(Clone, Copy, Debug, PartialEq, Eq, Structural)]
pub enum Event {
    Jump,
    Crash,
    Finish,
    Warning,
    Spawn,
    Caught,
    Gate,
    Missed,
}

/// The kinds of obstacle on a slope; a ramp launches the skier instead of
/// stopping them.
#[derive(Clone, Copy, Debug, PartialEq, Eq, Structural)]
pub enum Kind {
    Tree,
    Rock,
    Ramp,
    Pole,
}

#[derive(Clone, Copy, Debug, PartialEq, Eq, Structural)]
pub enum Phase {
    Ready,
    Running,
    Paused,
    Finished,
    Crashed,
    Caught,
}

/// A run that has ended, and will not move again until restarted.
pub open spec fn ended_spec(p: Phase) -> bool {
    p == Phase::Finished || p == Phase::Crashed || p == Phase::Caught
}

/// Starting (or resuming): a ready or paused run runs; any other phase stays.
pub fn started(p: Phase) -> (r: Phase)
    ensures
        r == if p == Phase::Ready || p == Phase::Paused {
            Phase::Running
        } else {
            p
        },
{
    match p {
        Phase::Ready | Phase::Paused => Phase::Running,
        _ => p,
    }
}

/// Pausing: only a running run pauses; pausing again changes nothing.
pub fn paused(p: Phase) -> (r: Phase)
    ensures
        r == if p == Phase::Running {
            Phase::Paused
        } else {
            p
        },
{
    if p == Phase::Running {
        Phase::Paused
    } else {
        p
    }
}

pub fn ended(p: Phase) -> (r: bool)
    ensures
        r == ended_spec(p),
{
    match p {
        Phase::Finished | Phase::Crashed | Phase::Caught => true,
        _ => false,
    }
}

/// The fast tuck toggles only during a run: `Some` with the new setting, or
/// `None` when the toggle is refused.
pub fn toggled_fast_mode(p: Phase, fast_mode: bool) -> (r: Option<bool>)
    ensures
        r == if p == Phase::Running {
            Some(!fast_mode)
        } else {
            None::<bool>
        },
{
    if p != Phase::Running {
        None
    } else {
        Some(!fast_mode)
    }
}

/// Whether `version` can be reproduced by this build.
pub open spec fn supported(version: u32) -> bool {
    1 <= version <= GENERATOR_VERSION
}

pub fn supports_version(version: u32) -> (r: bool)
    ensures
        r == supported(version),
{
    1 <= version && version <= GENERATOR_VERSION
}

/// The terrain hash of (`seed`, `chunk`, `stream`): a SplitMix64-style finaliser.
pub open spec fn mix(seed: u64, chunk: u64, stream: u64) -> u64 {
    let v0 = seed ^ vstd::wrapping::u64_specs::wrapping_mul(chunk, 0x9e37_79b9_7f4a_7c15)
        ^ vstd::wrapping::u64_specs::wrapping_mul(stream, 0xbf58_476d_1ce4_e5b9);
    let v1 = vstd::wrapping::u64_specs::wrapping_mul(v0 ^ (v0 >> 30u64), 0xbf58_476d_1ce4_e5b9);
    let v2 = vstd::wrapping::u64_specs::wrapping_mul(v1 ^ (v1 >> 27u64), 0x94d0_49bb_1331_11eb);
    v2 ^ (v2 >> 31u64)
}

pub fn hash(seed: u64, chunk: u64, stream: u64) -> (r: u64)
    ensures
        r == mix(seed, chunk, stream),
{
    let mut value = seed ^ chunk.wrapping_mul(0x9e37_79b9_7f4a_7c15) ^ stream.wrapping_mul(
        0xbf58_476d_1ce4_e5b9,
    );
    value = (value ^ (value >> 30u64)).wrapping_mul(0xbf58_476d_1ce4_e5b9);
    value = (value ^ (value >> 27u64)).wrapping_mul(0x94d0_49bb_1331_11eb);
    value ^ (value >> 31u64)
}

/// Whether `chunk` of the mountain `seed` holds a ramp, for a generator version.
pub open spec fn has_ramp(seed: u64, chunk: u64, version: u32) -> bool {
    chunk > 0 && if version == 1 {
        mix(seed, chunk, 0x4a55_4d50) % 3 == 0
    } else {
        mix(seed, chunk, 0x0032_4a55_4d50) % 3 == 0
    }
}

/// Whether generator 1 puts a ramp in `chunk` of the mountain `seed`.
pub fn ramp_for_chunk_v1(seed: u64, chunk: u64) -> (r: bool)
    ensures
        r == has_ramp(seed, chunk, 1),
{
    chunk > 0 && hash(seed, chunk, 0x4a55_4d50) % 3 == 0
}

/// Whether generator 2 puts a ramp in `chunk` of the mountain `seed`.
pub fn ramp_for_chunk_v2(seed: u64, chunk: u64) -> (r: bool)
    ensures
        r == has_ramp(seed, chunk, 2),
{
    chunk > 0 && hash(seed, chunk, 0x0032_4a55_4d50) % 3 == 0
}

/// An endless obstacle ID names a ramp: the ramp slot of a chunk that has one.
pub open spec fn ramp_id(seed: u64, id: usize, version: u32) -> bool {
    id % ID_STRIDE == RAMP_SLOT && has_ramp(seed, (id / ID_STRIDE) as u64, version)
}

/// Test whether a stable endless obstacle ID names a ramp for this seed,
/// whatever part of the mountain is currently generated.
pub fn is_ramp(seed: u64, id: usize) -> (r: bool)
    ensures
        r == ramp_id(seed, id, GENERATOR_VERSION),
{
    is_ramp_versioned(seed, id, GENERATOR_VERSION)
}

/// Test ramp identity against an explicit terrain generator revision.
pub fn is_ramp_versioned(seed: u64, id: usize, version: u32) -> (r: bool)
    requires
        supported(version),
    ensures
        r == ramp_id(seed, id, version),
{
    id % ID_STRIDE == RAMP_SLOT && if version == 1 {
        ramp_for_chunk_v1(seed, (id / ID_STRIDE) as u64)
    } else {
        ramp_for_chunk_v2(seed, (id / ID_STRIDE) as u64)
    }
}

/// Saves written before generator versions were recorded used generator 1.
pub fn default_generator_version() -> (r: u32)
    ensures
        r == 1,
{
    1
}

/// Saves written before courses were recorded had the first course unlocked.
pub fn default_unlocked_courses() -> (r: u8)
    ensures
        r == 1,
{
    1
}

/// The practice slope's lesson for the skier's distance down it in whole
/// metres: a heading and a hint.
pub fn lesson(metres: u32) -> (r: (&'static str, &'static str))
    ensures
        metres <= 90 ==> r.0@ == "01 / FIND YOUR EDGES"@ && r.1@
            == "Carve left and right. Hold brake to slow down."@,
        91 <= metres <= 275 ==> r.0@ == "02 / WIDE TURNS"@ && r.1@
            == "Look downhill. Leave space around the trees."@,
        276 <= metres <= 390 ==> r.0@ == "03 / TAKE IT SLOW"@ && r.1@
            == "Brake before the turn, then let the skis run."@,
        391 <= metres <= 470 ==> r.0@ == "04 / A LITTLE AIR"@ && r.1@
            == "The striped ramp launches you. Aim for clear snow."@,
        471 <= metres <= 950 ==> r.0@ == "05 / FIND A RHYTHM"@ && r.1@
            == "Link your turns. Ramps are optional."@,
        950 < metres ==> r.0@ == "06 / HOME STRETCH"@ && r.1@
            == "Finish at the flags. Your best distance is saved."@,
{
    if metres <= 90 {
        ("01 / FIND YOUR EDGES", "Carve left and right. Hold brake to slow down.")
    } else if metres <= 275 {
        ("02 / WIDE TURNS", "Look downhill. Leave space around the trees.")
    } else if metres <= 390 {
        ("03 / TAKE IT SLOW", "Brake before the turn, then let the skis run.")
    } else if metres <= 470 {
        ("04 / A LITTLE AIR", "The striped ramp launches you. Aim for clear snow.")
    } else if metres <= 950 {
        ("05 / FIND A RHYTHM", "Link your turns. Ramps are optional.")
    } else {
        ("06 / HOME STRETCH", "Finish at the flags. Your best distance is saved.")
    }
}

/// The save document version this build writes.
pub const SAVE_VERSION: u32 = 4;

/// Why a Free Ski save's version pair is refused; the file is left as it is.
#[derive(Clone, Copy, Debug, PartialEq, Eq, Structural)]
pub enum SchemaError {
    /// A document version or rules version this build does not know.
    Incompatible,
    /// An old document written under current rules, or the reverse.
    Inconsistent,
}

/// The version gate of a loaded save: `Ok(true)` for a document from before
/// rules 3, whose records are kept apart and whose run is migrated;
/// `Ok(false)` for a current one.
pub fn schema_gate(version: u32, rules_version: u32) -> (r: Result<bool, SchemaError>)
    ensures
        r == if !(1 <= version <= SAVE_VERSION) || !(1 <= rules_version <= RULES_VERSION) {
            Err::<bool, SchemaError>(SchemaError::Incompatible)
        } else if (version <= 3) != (rules_version <= 2) {
            Err(SchemaError::Inconsistent)
        } else {
            Ok(version <= 3)
        },
{
    let legacy_envelope = 1 <= version && version <= 3;
    let legacy_rules = rules_version == 1 || rules_version == 2;
    if !(1 <= version && version <= SAVE_VERSION) || !(1 <= rules_version && rules_version
        <= RULES_VERSION) {
        return Err(SchemaError::Incompatible);
    }
    if legacy_envelope != legacy_rules {
        return Err(SchemaError::Inconsistent);
    }
    Ok(legacy_envelope)
}

/// A finished slalom course's best time: the faster of the old best and `ticks`.
pub fn best_course_time(best: Option<u64>, ticks: u64) -> (r: Option<u64>)
    ensures
        r == Some(
            match best {
                Some(b) => if b <= ticks {
                    b
                } else {
                    ticks
                },
                None => ticks,
            },
        ),
{
    match best {
        Some(b) => Some(if b <= ticks {
            b
        } else {
            ticks
        }),
        None => Some(ticks),
    }
}

/// Courses unlocked after finishing course `index` of `count`: the next one
/// opens, and an unlock is never taken back.
pub fn unlocked_after(unlocked: u8, index: u8, count: u8) -> (r: u8)
    requires
        index + 2 <= u8::MAX,
    ensures
        r == if unlocked >= (if index + 2 <= count { index + 2 } else { count as int }) {
            unlocked as int
        } else if index + 2 <= count {
            index + 2
        } else {
            count as int
        },
        r >= unlocked,
{
    let next = if index + 2 <= count {
        index + 2
    } else {
        count
    };
    if unlocked >= next {
        unlocked
    } else {
        next
    }
}

/// The opening chunk never holds a ramp, so no ramp ID lies below `ID_STRIDE`.
pub proof fn lemma_no_ramp_in_opening(seed: u64, id: usize, version: u32)
    requires
        id < ID_STRIDE,
    ensures
        !ramp_id(seed, id, version),
{
}

} // verus!
