use vstd::prelude::*;

verus! {

/// The four debouncer states. A full press-then-release cycle walks
/// Idle -> FirstPress -> Active; while `Active`, the gated panel is shown;
/// a second press-then-release cycle (`SecondPress`) walks back to `Idle`.
#[derive(Clone, Copy, PartialEq, Eq, Structural, Debug)]
pub enum LatchState {
    Idle,
    FirstPress,
    Active,
    SecondPress,
}

/// The transition table: the raw input advances the cycle exactly on the
/// four listed edges; every other (state, input) pair is a self-loop.
pub open spec fn next_state(s: LatchState, input: bool) -> LatchState {
    match s {
        LatchState::Idle => if input {
            LatchState::FirstPress
        } else {
            s
        },
        LatchState::FirstPress => if !input {
            LatchState::Active
        } else {
            s
        },
        LatchState::Active => if input {
            LatchState::SecondPress
        } else {
            s
        },
        LatchState::SecondPress => if !input {
            LatchState::Idle
        } else {
            s
        },
    }
}

/// Debouncer turning a noisy, possibly held-down boolean signal into a level
/// that toggles once per full press-and-release cycle, so a held key cannot
/// flicker the gated state open and closed every step. Callers poll exactly
/// once per step with the raw signal of that step.
pub struct EdgeLatch {
    state: LatchState,
}

impl EdgeLatch {
    /// The current debouncer state.
    pub closed spec fn state(self) -> LatchState {
        self.state
    }

    /// A fresh latch rests in `Idle`.
    pub fn new() -> (l: EdgeLatch)
        ensures
            l.state() == LatchState::Idle,
    {
        EdgeLatch { state: LatchState::Idle }
    }

    /// Applies one step's raw input to the transition table and reports
    /// whether the latch is now `Active`, i.e. whether the gated state is on.
    pub fn poll(&mut self, input: bool) -> (active: bool)
        ensures
            final(self).state() == next_state(old(self).state(), input),
            active == (final(self).state() == LatchState::Active),
    {
        self.state = match self.state {
            LatchState::Idle => if input {
                LatchState::FirstPress
            } else {
                LatchState::Idle
            },
            LatchState::FirstPress => if !input {
                LatchState::Active
            } else {
                LatchState::FirstPress
            },
            LatchState::Active => if input {
                LatchState::SecondPress
            } else {
                LatchState::Active
            },
            LatchState::SecondPress => if !input {
                LatchState::Idle
            } else {
                LatchState::SecondPress
            },
        };
        match self.state {
            LatchState::Active => true,
            _ => false,
        }
    }
}

} // verus!
