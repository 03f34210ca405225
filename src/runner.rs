//! Decisions of a run driven from outside, one generation at a time, with
//! cancellation honoured at generation boundaries.
use vstd::prelude::*;
use crate::model::GaError;

verus! {

#[derive(Debug, PartialEq, Eq, Structural, Clone, Copy)]
pub enum RunState {
    Running,
    Completed,
    Cancelled,
}

/// What the driver does next.
#[derive(Debug, PartialEq, Eq, Structural, Clone, Copy)]
pub enum RunAction {
    /// Run the generation with this index, then report its progress.
    RunGeneration(usize),
    /// Run no more generations.
    Stop,
}

/// State of a run: how many generations have run out of how many asked for.
#[derive(Debug, PartialEq, Eq, Structural, Clone, Copy)]
pub struct RunControl {
    pub state: RunState,
    pub generation: usize,
    pub generations: usize,
}

/// The decision at a generation boundary, given whether a cancellation has
/// arrived: a finished run stays as it is; a cancellation ends a running run
/// for good; otherwise the next generation runs while any is left.
pub open spec fn step(c: RunControl, cancel: bool) -> (RunControl, RunAction) {
    if c.state != RunState::Running {
        (c, RunAction::Stop)
    } else if cancel {
        (RunControl { state: RunState::Cancelled, ..c }, RunAction::Stop)
    } else if c.generation >= c.generations {
        (RunControl { state: RunState::Completed, ..c }, RunAction::Stop)
    } else {
        (
            RunControl { generation: (c.generation + 1) as usize, ..c },
            RunAction::RunGeneration(c.generation),
        )
    }
}

/// The control after the first `n` boundaries, with `events[i]` telling
/// whether a cancellation had arrived at boundary `i`.
pub open spec fn after(c: RunControl, events: Seq<bool>, n: int) -> RunControl
    decreases n,
{
    if n <= 0 || n > events.len() {
        c
    } else {
        step(after(c, events, n - 1), events[n - 1]).0
    }
}

impl RunControl {
    pub fn new(generations: usize) -> (r: RunControl)
        ensures
            r.state == RunState::Running,
            r.generation == 0,
            r.generations == generations,
    {
        RunControl { state: RunState::Running, generation: 0, generations }
    }

    /// Decides at a generation boundary; see `step`.
    pub fn next(&mut self, cancel: bool) -> (r: RunAction)
        requires
            old(self).generation <= old(self).generations,
        ensures
            (*final(self), r) == step(*old(self), cancel),
            final(self).generation <= final(self).generations,
    {
        if self.state != RunState::Running {
            RunAction::Stop
        } else if cancel {
            self.state = RunState::Cancelled;
            RunAction::Stop
        } else if self.generation >= self.generations {
            self.state = RunState::Completed;
            RunAction::Stop
        } else {
            let g = self.generation;
            self.generation = g + 1;
            RunAction::RunGeneration(g)
        }
    }
}

/// Once a run has seen a cancellation it stays cancelled: whatever arrives
/// at later boundaries, no further generation runs and the generation count
/// never grows, so no progress with a later generation index is reported.
pub proof fn lemma_cancel_is_final(c: RunControl, events: Seq<bool>, n: int)
    requires
        c.state == RunState::Cancelled,
        0 <= n <= events.len(),
    ensures
        after(c, events, n) == c,
        forall|m: int| 0 <= m < events.len() ==> step(#[trigger] after(c, events, m), events[m]).1 == RunAction::Stop || m >= n,
    decreases n,
{
    if n > 0 {
        lemma_cancel_is_final(c, events, n - 1);
    }
    assert forall|m: int| 0 <= m < events.len() implies step(#[trigger] after(c, events, m), events[m]).1 == RunAction::Stop || m >= n by {
        if m < n {
            lemma_cancel_is_final(c, events, m);
        }
    }
}

/// A run never goes past the number of generations asked for: the index of
/// every generation it runs is below that number.
pub proof fn lemma_runs_within_budget(c: RunControl, cancel: bool)
    requires
        c.generation <= c.generations,
    ensures
        step(c, cancel).0.generation <= c.generations,
        step(c, cancel).0.generations == c.generations,
        step(c, cancel).1 matches RunAction::RunGeneration(g) ==> g == c.generation && g < c.generations,
{
}

/// What the window does with the input of one frame.
#[derive(Debug, PartialEq, Eq, Structural, Clone, Copy)]
pub enum SessionCommand {
    /// Nothing to do.
    Nothing,
    /// Start a run with the configuration shown.
    Start,
    /// Cancel the active run and wait for it to end.
    Cancel,
    /// A run is already active: a second one is refused.
    RejectBusy,
    /// The configuration shown is refused, with this reason.
    RejectConfig(GaError),
}

/// The decision step of the window, taken once per frame; opening the window
/// itself is left to the program around the library.
///
/// The window's decisions for one frame, given whether a run is active,
/// which of the start and stop buttons were pressed, and the outcome of
/// validating the configuration shown. At most one run is active: a stop of
/// an active run cancels it, a start while one is active is refused, and a
/// start with no active run begins one only with a valid configuration.
pub fn run_gui(active: bool, start: bool, stop: bool, config: Result<(), GaError>) -> (r:
    SessionCommand)
    ensures
        active && stop ==> r == SessionCommand::Cancel,
        active && !stop && start ==> r == SessionCommand::RejectBusy,
        !active && start && config is Ok ==> r == SessionCommand::Start,
        !active && start && config is Err ==> r == SessionCommand::RejectConfig(config->Err_0),
        !start && !(active && stop) ==> r == SessionCommand::Nothing,
{
    if active {
        if stop {
            SessionCommand::Cancel
        } else if start {
            SessionCommand::RejectBusy
        } else {
            SessionCommand::Nothing
        }
    } else if start {
        match config {
            Ok(()) => SessionCommand::Start,
            Err(e) => SessionCommand::RejectConfig(e),
        }
    } else {
        SessionCommand::Nothing
    }
}

} // verus!
