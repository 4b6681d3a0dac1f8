//! Per-word spaced-repetition state: a due date and an interval strength.
//!
//! Time is measured in milliseconds. A timestamp is a count of milliseconds
//! since an arbitrary epoch; a strength is a span of milliseconds.

use vstd::prelude::*;

verus! {

/// Interval strength given to a word on first encounter and after a failed
/// review: five seconds.
pub const INITIAL_STRENGTH_MS: i64 = 5000;

/// Bound on timestamps handed to the memory model (about 35,000 years of
/// milliseconds), so that due-date arithmetic stays inside `i64`.
pub const MAX_TIME_MS: i64 = 0x4_0000_0000_0000;

/// Bound on an interval strength accepted by a review transition, so that
/// the five-fold growth of a successful spaced recall stays inside `i64`.
pub const MAX_STRENGTH_MS: i64 = 0x4_0000_0000_0000;

/// Spaced-repetition state of one word: when it is next due, and the current
/// interval strength in milliseconds.
#[derive(Clone, Copy, Debug, PartialEq, Eq, Structural)]
pub struct Proficiency {
    /// Timestamp at which the word is due for review.
    pub target_date: i64,
    /// Current review interval in milliseconds.
    pub memory_strength: i64,
}

/// Bound on the due dates the scheduling model stores: every record written
/// through the model's operations, with timestamps within `MAX_TIME_MS` and
/// strengths within `MAX_STRENGTH_MS`, stays inside it.
pub const MAX_DATE_MS: i64 = 0x20_0000_0000_0000;

/// The state of a word first encountered at time `at`.
pub open spec fn spec_init(at: i64) -> Proficiency {
    Proficiency { target_date: at, memory_strength: INITIAL_STRENGTH_MS }
}

/// The state after a failed review at time `at`.
pub open spec fn spec_fail(at: i64) -> Proficiency {
    Proficiency {
        target_date: (at + INITIAL_STRENGTH_MS) as i64,
        memory_strength: INITIAL_STRENGTH_MS,
    }
}

/// The state after a successful review at time `at`: two-percent growth
/// before the due date, five-fold growth at or after it.
pub open spec fn spec_success(p: Proficiency, at: i64) -> Proficiency {
    let s = if p.target_date > at {
        (p.memory_strength + p.memory_strength / 50) as i64
    } else {
        (p.memory_strength * 5) as i64
    };
    Proficiency { target_date: (at + s) as i64, memory_strength: s }
}

/// The interval never decreases except through `fail`: a success at any
/// time, before or after the due date, keeps at least the old strength.
pub proof fn lemma_success_never_shrinks(p: Proficiency, at: i64)
    requires
        0 <= p.memory_strength <= MAX_STRENGTH_MS,
        -MAX_TIME_MS <= at <= MAX_TIME_MS,
    ensures
        spec_success(p, at).memory_strength >= p.memory_strength,
{
    let s = p.memory_strength as int;
    assert(0 <= s / 50 <= s) by (nonlinear_arith)
        requires
            s >= 0,
    ;
}

impl Proficiency {
    /// State of a word first encountered at time `at`: due immediately, with
    /// the initial five-second strength.
    pub fn init(at: i64) -> (p: Proficiency)
        ensures
            p.target_date == at,
            p.memory_strength == INITIAL_STRENGTH_MS,
            p == spec_init(at),
    {
        Proficiency { target_date: at, memory_strength: INITIAL_STRENGTH_MS }
    }

    /// A failed review resets the interval to five seconds and schedules the
    /// next review that far in the future.
    pub fn fail(&mut self, at: i64)
        requires
            -MAX_TIME_MS <= at <= MAX_TIME_MS,
        ensures
            final(self).memory_strength == INITIAL_STRENGTH_MS,
            final(self).target_date == at + INITIAL_STRENGTH_MS,
            *final(self) == spec_fail(at),
    {
        self.memory_strength = INITIAL_STRENGTH_MS;
        self.target_date = at + self.memory_strength;
    }

    /// A successful review grows the interval and schedules the next review
    /// one interval after `at`. A review before the due date (the word was
    /// not yet forgotten) grows the interval by a fiftieth; a review at or
    /// after the due date (a true spaced recall) grows it five-fold.
    pub fn success(&mut self, at: i64)
        requires
            -MAX_TIME_MS <= at <= MAX_TIME_MS,
            0 <= old(self).memory_strength <= MAX_STRENGTH_MS,
        ensures
            old(self).target_date > at ==> final(self).memory_strength == old(
                self,
            ).memory_strength + old(self).memory_strength / 50,
            old(self).target_date <= at ==> final(self).memory_strength == old(
                self,
            ).memory_strength * 5,
            final(self).target_date == at + final(self).memory_strength,
            *final(self) == spec_success(*old(self), at),
    {
        if self.target_date > at {
            self.memory_strength = self.memory_strength + self.memory_strength / 50;
        } else {
            self.memory_strength = self.memory_strength + self.memory_strength * 4;
        }
        self.target_date = at + self.memory_strength;
    }
}

} // verus!
