//! Free Ski's pursuit countdown: when the creature is announced, how long the
//! warning lasts, and how a spawn that finds no clear ground is retried. Where
//! the creature stands and how it moves is floating-point physics, kept apart.
use vstd::prelude::*;

verus! {

/// Ticks of warning between the announcement and the first spawn attempt.
pub const WARNING_TICKS: u32 = 180;

/// Ticks to wait after a spawn attempt that found no clear ground.
pub const SPAWN_RETRY_TICKS: u32 = 60;

/// The most failed spawn attempts that are counted.
pub const MAX_FAILED_RETRIES: u8 = 8;

#[derive(Clone, Copy, Debug, PartialEq, Eq, Structural)]
pub enum ChasePhase {
    Dormant,
    Warning,
    Active,
}

impl Default for ChasePhase {
    fn default() -> (r: Self)
        ensures
            r == ChasePhase::Dormant,
    {
        ChasePhase::Dormant
    }
}

#[derive(Clone, Copy, Debug, PartialEq, Eq, Structural)]
pub enum ChaseEvent {
    Warning,
    Spawned,
}

/// The pursuit's phase and timers.
#[derive(Clone, Copy, Debug, PartialEq, Eq, Structural)]
pub struct Countdown {
    pub phase: ChasePhase,
    pub warning_ticks: u32,
    pub retry_ticks: u32,
    pub failed_retries: u8,
}

/// The order of the phases: a pursuit only moves forward through them.
pub open spec fn rank(p: ChasePhase) -> int {
    match p {
        ChasePhase::Dormant => 0,
        ChasePhase::Warning => 1,
        ChasePhase::Active => 2,
    }
}

impl Countdown {
    /// A countdown that has not begun.
    pub fn new() -> (c: Self)
        ensures
            c == (Countdown {
                phase: ChasePhase::Dormant,
                warning_ticks: 0,
                retry_ticks: 0,
                failed_retries: 0,
            }),
    {
        Countdown { phase: ChasePhase::Dormant, warning_ticks: 0, retry_ticks: 0, failed_retries: 0 }
    }

    /// The timers stay within their lengths, a dormant pursuit has none
    /// running, and an active one has both run out.
    pub open spec fn valid_spec(self) -> bool {
        &&& self.warning_ticks <= WARNING_TICKS
        &&& self.retry_ticks <= SPAWN_RETRY_TICKS
        &&& self.failed_retries <= MAX_FAILED_RETRIES
        &&& match self.phase {
            ChasePhase::Dormant => self.warning_ticks == 0 && self.retry_ticks == 0
                && self.failed_retries == 0,
            ChasePhase::Warning => true,
            ChasePhase::Active => self.warning_ticks == 0 && self.retry_ticks == 0,
        }
    }

    pub fn valid(&self) -> (r: bool)
        ensures
            r == self.valid_spec(),
    {
        self.warning_ticks <= WARNING_TICKS && self.retry_ticks <= SPAWN_RETRY_TICKS
            && self.failed_retries <= MAX_FAILED_RETRIES && match self.phase {
            ChasePhase::Dormant => self.warning_ticks == 0 && self.retry_ticks == 0
                && self.failed_retries == 0,
            ChasePhase::Warning => true,
            ChasePhase::Active => self.warning_ticks == 0 && self.retry_ticks == 0,
        }
    }

    /// This tick makes a spawn attempt: the warning and any retry wait are over.
    pub open spec fn search_due_spec(self) -> bool {
        self.phase == ChasePhase::Warning && self.warning_ticks == 0 && self.retry_ticks == 0
    }

    pub fn search_due(&self) -> (r: bool)
        ensures
            r == self.search_due_spec(),
    {
        self.phase == ChasePhase::Warning && self.warning_ticks == 0 && self.retry_ticks == 0
    }

    /// One tick of the countdown. `reached` tells whether the skier has passed
    /// the trigger distance; `found` whether the spawn attempt, made only when
    /// one is due, found clear ground.
    pub open spec fn after(self, reached: bool, found: bool) -> (Countdown, Option<ChaseEvent>) {
        match self.phase {
            ChasePhase::Dormant => if reached {
                (
                    Countdown { phase: ChasePhase::Warning, warning_ticks: WARNING_TICKS, ..self },
                    Some(ChaseEvent::Warning),
                )
            } else {
                (self, None)
            },
            ChasePhase::Warning => if self.warning_ticks > 0 {
                (Countdown { warning_ticks: (self.warning_ticks - 1) as u32, ..self }, None)
            } else if self.retry_ticks > 0 {
                (Countdown { retry_ticks: (self.retry_ticks - 1) as u32, ..self }, None)
            } else if found {
                (
                    Countdown { phase: ChasePhase::Active, failed_retries: 0, ..self },
                    Some(ChaseEvent::Spawned),
                )
            } else {
                (
                    Countdown {
                        failed_retries: if self.failed_retries < MAX_FAILED_RETRIES {
                            (self.failed_retries + 1) as u8
                        } else {
                            MAX_FAILED_RETRIES
                        },
                        retry_ticks: SPAWN_RETRY_TICKS,
                        ..self
                    },
                    None,
                )
            },
            ChasePhase::Active => (self, None),
        }
    }

    /// Advance the countdown by one tick; see `after`.
    pub fn tick(&self, reached: bool, found: bool) -> (r: (Countdown, Option<ChaseEvent>))
        ensures
            r == self.after(reached, found),
    {
        let mut next = *self;
        match self.phase {
            ChasePhase::Dormant => {
                if reached {
                    next.phase = ChasePhase::Warning;
                    next.warning_ticks = WARNING_TICKS;
                    return (next, Some(ChaseEvent::Warning));
                }
                (next, None)
            },
            ChasePhase::Warning => {
                if next.warning_ticks > 0 {
                    next.warning_ticks = next.warning_ticks - 1;
                    (next, None)
                } else if next.retry_ticks > 0 {
                    next.retry_ticks = next.retry_ticks - 1;
                    (next, None)
                } else if found {
                    next.phase = ChasePhase::Active;
                    next.failed_retries = 0;
                    (next, Some(ChaseEvent::Spawned))
                } else {
                    let failed = next.failed_retries.saturating_add(1);
                    next.failed_retries = if failed < MAX_FAILED_RETRIES {
                        failed
                    } else {
                        MAX_FAILED_RETRIES
                    };
                    next.retry_ticks = SPAWN_RETRY_TICKS;
                    (next, None)
                }
            },
            ChasePhase::Active => (next, None),
        }
    }
}

/// The countdown after ticks with the inputs `steps`, each (`reached`, `found`).
pub open spec fn run(c: Countdown, steps: Seq<(bool, bool)>) -> Countdown
    decreases steps.len(),
{
    if steps.len() == 0 {
        c
    } else {
        run(c.after(steps[0].0, steps[0].1).0, steps.drop_first())
    }
}

/// How many warnings the ticks with the inputs `steps` announce.
pub open spec fn warnings(c: Countdown, steps: Seq<(bool, bool)>) -> nat
    decreases steps.len(),
{
    if steps.len() == 0 {
        0
    } else {
        let (next, event) = c.after(steps[0].0, steps[0].1);
        (if event == Some(ChaseEvent::Warning) {
            1nat
        } else {
            0nat
        }) + warnings(next, steps.drop_first())
    }
}

/// A tick keeps a valid countdown valid, and never moves its phase back.
pub proof fn lemma_tick_keeps_valid(c: Countdown, reached: bool, found: bool)
    requires
        c.valid_spec(),
    ensures
        c.after(reached, found).0.valid_spec(),
        rank(c.after(reached, found).0.phase) >= rank(c.phase),
{
}

/// The creature is announced at most once in a run, and never once the
/// warning has been given.
pub proof fn lemma_one_warning(c: Countdown, steps: Seq<(bool, bool)>)
    ensures
        warnings(c, steps) <= 1,
        c.phase != ChasePhase::Dormant ==> warnings(c, steps) == 0,
    decreases steps.len(),
{
    if steps.len() > 0 {
        let next = c.after(steps[0].0, steps[0].1).0;
        lemma_one_warning(next, steps.drop_first());
    }
}

/// After the warning, the first spawn attempt comes exactly `WARNING_TICKS`
/// ticks later, whatever the skier does meanwhile.
pub proof fn lemma_spawn_attempt_after_warning(c: Countdown, steps: Seq<(bool, bool)>)
    requires
        c.phase == ChasePhase::Warning,
        c.retry_ticks == 0,
        steps.len() == c.warning_ticks,
    ensures
        run(c, steps).search_due_spec(),
        forall|k: int| 0 <= k < steps.len() ==> !#[trigger] run(c, steps.take(k)).search_due_spec(),
    decreases steps.len(),
{
    if steps.len() > 0 {
        let next = c.after(steps[0].0, steps[0].1).0;
        let rest = steps.drop_first();
        lemma_spawn_attempt_after_warning(next, rest);
        assert forall|k: int| 0 <= k < steps.len() implies !#[trigger] run(
            c,
            steps.take(k),
        ).search_due_spec() by {
            if k > 0 {
                assert(steps.take(k).drop_first() =~= rest.take(k - 1));
                assert(steps.take(k)[0] == steps[0]);
                assert(run(c, steps.take(k)) == run(next, rest.take(k - 1)));
                assert(!run(next, rest.take(k - 1)).search_due_spec());
            } else {
                assert(steps.take(k).len() == 0);
                assert(run(c, steps.take(k)) == c);
            }
        }
    }
}

} // verus!
