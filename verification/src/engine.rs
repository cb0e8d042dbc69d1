//! How one note is pressed.
//!
//! A note is selected by its keys and made to sound by the play key. The
//! play key goes down only after the note's keys and comes up before them:
//! with the order reversed the instrument sounds a wrong note.

use vstd::prelude::*;

verus! {

/// An articulation that holds a note for all of its length.
pub const WHOLE: u32 = 1_000_000;

/// Time left to the instrument between a change of the note's keys and a
/// change of the play key, in microseconds.
pub const SETTLE_US: u64 = 1_000;

/// One thing to do while pressing a note.
#[derive(Debug, Clone, Copy, PartialEq, Eq, Structural)]
pub enum Step {
    /// Press the keys of the note.
    NoteDown,
    /// Press the play key.
    PlayDown,
    /// Release the play key.
    PlayUp,
    /// Release the keys of the note.
    NoteUp,
    /// Let this many microseconds pass.
    Wait(u64),
}

/// Why a note cannot be pressed.
#[derive(Debug, Clone, Copy, PartialEq, Eq, Structural)]
pub enum PressError {
    /// The note is to be held for no time at all.
    NoHold,
}

impl PressError {
    /// A sentence for the user.
    pub fn message(&self) -> (r: &'static str)
        ensures
            r@ == "hold_us must be greater than 0..!"@,
    {
        "hold_us must be greater than 0..!"
    }
}

/// The articulation holds a part of the note and leaves a gap.
pub open spec fn parts_note(articulation: u32) -> bool {
    0 < articulation < WHOLE
}

/// The part of `hold_us` for which the play key stays down under an
/// articulation given in parts per million.
///
/// An articulation strictly between nothing and the whole holds that share
/// of the length, rounded down, but one microsecond at least; any other
/// holds all of it.
pub open spec fn held(hold_us: u64, articulation: u32) -> int {
    let share = (hold_us * articulation) / (WHOLE as int);
    if !parts_note(articulation) {
        hold_us as int
    } else if share > 0 {
        share
    } else {
        1
    }
}

/// The rest of `hold_us`, which passes after the note has been released.
pub open spec fn released(hold_us: u64, articulation: u32) -> int {
    hold_us - held(hold_us, articulation)
}

/// What is done to press a note for `hold_us` microseconds: seven steps
/// under an articulation that holds the whole note, and an eighth, the gap,
/// under one that holds a part of it.
pub open spec fn press_sequence(hold_us: u64, articulation: u32) -> Seq<Step> {
    let body = seq![
        Step::NoteDown,
        Step::Wait(SETTLE_US),
        Step::PlayDown,
        Step::Wait(held(hold_us, articulation) as u64),
        Step::PlayUp,
        Step::Wait(SETTLE_US),
        Step::NoteUp,
    ];
    if parts_note(articulation) {
        body.push(Step::Wait(released(hold_us, articulation) as u64))
    } else {
        body
    }
}

/// The microseconds that the waits of `steps` add up to.
pub open spec fn waited(steps: Seq<Step>) -> int
    decreases steps.len(),
{
    if steps.len() == 0 {
        0
    } else {
        waited(steps.drop_last()) + match steps.last() {
            Step::Wait(us) => us as int,
            _ => 0,
        }
    }
}

/// How often `step` occurs in `steps`.
pub open spec fn count(steps: Seq<Step>, step: Step) -> int
    decreases steps.len(),
{
    if steps.len() == 0 {
        0
    } else {
        count(steps.drop_last(), step) + if steps.last() == step {
            1int
        } else {
            0int
        }
    }
}

/// Wherever `earlier` and `later` occur in `steps`, `earlier` comes first.
pub open spec fn before(steps: Seq<Step>, earlier: Step, later: Step) -> bool {
    forall|i: int, j: int|
        0 <= i < steps.len() && 0 <= j < steps.len() && #[trigger] steps[i] == earlier
            && #[trigger] steps[j] == later ==> i < j
}

/// Right behind `step`, wherever it occurs in `steps`, the instrument is
/// left time to settle.
pub open spec fn settles_after(steps: Seq<Step>, step: Step) -> bool {
    forall|i: int|
        0 <= i < steps.len() && #[trigger] steps[i] == step ==> i + 1 < steps.len() && steps[i
            + 1] == Step::Wait(SETTLE_US)
}

proof fn lemma_unfold(steps: Seq<Step>, n: nat)
    requires
        n <= steps.len(),
    ensures
        waited(steps.take(n as int)) == if n == 0 {
            0
        } else {
            waited(steps.take(n - 1)) + match steps[n - 1] {
                Step::Wait(us) => us as int,
                _ => 0,
            }
        },
        forall|s: Step|
            #[trigger] count(steps.take(n as int), s) == if n == 0 {
                0
            } else {
                count(steps.take(n - 1), s) + if steps[n - 1] == s {
                    1int
                } else {
                    0int
                }
            },
{
    if n > 0 {
        let taken = steps.take(n as int);
        assert(taken.drop_last() == steps.take(n - 1));
        assert(taken.last() == steps[n - 1]);
    }
}

/// In pressing a note each key goes down once and up once, the play key
/// goes down after the note's keys and up before them, the instrument is
/// left time to settle in between, and all the waiting takes the length of
/// the note and the two settling times together. An articulation that
/// holds a part of the note gives eight steps, the last of them the gap.
pub proof fn lemma_press_order(hold_us: u64, articulation: u32)
    requires
        hold_us > 0,
    ensures
        ({
            let steps = press_sequence(hold_us, articulation);
            &&& count(steps, Step::NoteDown) == 1
            &&& count(steps, Step::PlayDown) == 1
            &&& count(steps, Step::PlayUp) == 1
            &&& count(steps, Step::NoteUp) == 1
            &&& before(steps, Step::NoteDown, Step::PlayDown)
            &&& before(steps, Step::PlayDown, Step::PlayUp)
            &&& before(steps, Step::PlayUp, Step::NoteUp)
            &&& settles_after(steps, Step::NoteDown)
            &&& settles_after(steps, Step::PlayUp)
            &&& waited(steps) == hold_us + 2 * SETTLE_US
            &&& 0 < held(hold_us, articulation) <= hold_us
            &&& steps.len() == if parts_note(articulation) {
                8int
            } else {
                7int
            }
            &&& parts_note(articulation) && hold_us * articulation >= WHOLE ==> held(
                hold_us,
                articulation,
            ) == (hold_us * articulation) / (WHOLE as int) && released(hold_us, articulation) > 0
        }),
{
    let steps = press_sequence(hold_us, articulation);
    lemma_held(hold_us, articulation);
    lemma_unfold(steps, 0);
    lemma_unfold(steps, 1);
    lemma_unfold(steps, 2);
    lemma_unfold(steps, 3);
    lemma_unfold(steps, 4);
    lemma_unfold(steps, 5);
    lemma_unfold(steps, 6);
    lemma_unfold(steps, 7);
    if steps.len() == 8 {
        lemma_unfold(steps, 8);
    }
    assert(steps.take(steps.len() as int) == steps);
}

proof fn lemma_held(hold_us: u64, articulation: u32)
    requires
        hold_us > 0,
    ensures
        0 < held(hold_us, articulation) <= hold_us,
        parts_note(articulation) ==> (hold_us * articulation) / (WHOLE as int) < hold_us,
        hold_us * articulation >= WHOLE ==> (hold_us * articulation) / (WHOLE as int) >= 1,
{
    let h = hold_us as int;
    let a = articulation as int;
    let w = WHOLE as int;
    if 0 < a < w {
        assert((h * a) / w < h) by (nonlinear_arith)
            requires
                0 < a < w,
                h > 0,
        ;
    }
    if h * a >= w {
        assert((h * a) / w >= 1) by (nonlinear_arith)
            requires
                h * a >= w,
                w > 0,
        ;
    }
}

/// Lays out the steps of pressing a note for `hold_us` microseconds under
/// an articulation given in parts per million.
///
/// A note that is to be held for no time is refused.
pub fn press_steps(hold_us: u64, articulation: u32) -> (r: Result<Vec<Step>, PressError>)
    ensures
        r is Err <==> hold_us == 0,
        r matches Ok(steps) ==> steps@ == press_sequence(hold_us, articulation),
{
    if hold_us == 0 {
        return Err(PressError::NoHold);
    }
    let mut hold: u64 = hold_us;
    if 0 < articulation && articulation < WHOLE {
        proof {
            lemma_held(hold_us, articulation);
            assert(hold_us * articulation <= u64::MAX * u32::MAX) by (nonlinear_arith)
                requires
                    hold_us <= u64::MAX,
                    articulation <= u32::MAX,
            ;
        }
        let share: u128 = (hold_us as u128) * (articulation as u128) / (WHOLE as u128);
        hold = if share > 0 {
            share as u64
        } else {
            1
        };
    }
    let release: u64 = hold_us - hold;
    let mut steps: Vec<Step> = Vec::new();
    steps.push(Step::NoteDown);
    steps.push(Step::Wait(SETTLE_US));
    steps.push(Step::PlayDown);
    steps.push(Step::Wait(hold));
    steps.push(Step::PlayUp);
    steps.push(Step::Wait(SETTLE_US));
    steps.push(Step::NoteUp);
    if 0 < articulation && articulation < WHOLE {
        steps.push(Step::Wait(release));
    }
    proof {
        assert(steps@ =~= press_sequence(hold_us, articulation));
    }
    Ok(steps)
}

} // verus!
