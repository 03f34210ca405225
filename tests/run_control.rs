use rust_genetic_algorithm::model::GaError;
use rust_genetic_algorithm::run_gui;
use rust_genetic_algorithm::runner::{RunAction, RunControl, RunState, SessionCommand};

#[test]
fn runs_every_generation_then_completes() {
    let mut c = RunControl::new(3);
    assert_eq!(c.next(false), RunAction::RunGeneration(0));
    assert_eq!(c.next(false), RunAction::RunGeneration(1));
    assert_eq!(c.next(false), RunAction::RunGeneration(2));
    assert_eq!(c.next(false), RunAction::Stop);
    assert_eq!(c.state, RunState::Completed);
}

#[test]
fn cancellation_stops_for_good() {
    let mut c = RunControl::new(10);
    assert_eq!(c.next(false), RunAction::RunGeneration(0));
    assert_eq!(c.next(false), RunAction::RunGeneration(1));
    assert_eq!(c.next(true), RunAction::Stop);
    assert_eq!(c.state, RunState::Cancelled);
    for cancel in [false, true, false, false] {
        assert_eq!(c.next(cancel), RunAction::Stop);
        assert_eq!(c.generation, 2);
    }
}

#[test]
fn zero_generations_completes_at_once() {
    let mut c = RunControl::new(0);
    assert_eq!(c.next(false), RunAction::Stop);
    assert_eq!(c.state, RunState::Completed);
}

#[test]
fn window_allows_one_run_at_a_time() {
    assert_eq!(run_gui(false, true, false, Ok(())), SessionCommand::Start);
    assert_eq!(run_gui(true, true, false, Ok(())), SessionCommand::RejectBusy);
    assert_eq!(run_gui(true, false, true, Ok(())), SessionCommand::Cancel);
    assert_eq!(
        run_gui(false, true, false, Err(GaError::InvalidConfiguration)),
        SessionCommand::RejectConfig(GaError::InvalidConfiguration)
    );
    assert_eq!(run_gui(false, false, false, Ok(())), SessionCommand::Nothing);
    assert_eq!(run_gui(false, false, true, Ok(())), SessionCommand::Nothing);
}
