use vstd::prelude::*;

pub mod driver;
pub mod zigzag;

verus! {

/// What the engine is doing.
#[derive(Debug, Clone, Copy, PartialEq, Eq, Structural)]
pub enum EngineState {
    Idle,
    Running,
    Paused,
}

/// A command sent to the engine by a hotkey.
#[derive(Debug, Clone, Copy, PartialEq, Eq, Structural)]
pub enum EngineCommand {
    Start,
    Pause,
    Stop,
}

/// The state that `cmd` leads to from `state`. The valid transitions are
/// Idle --Start--> Running, Running --Pause--> Paused, Running --Stop--> Idle,
/// Paused --Start--> Running and Paused --Stop--> Idle; every other command
/// is ignored and leaves the state as it is.
pub open spec fn transition(state: EngineState, cmd: EngineCommand) -> EngineState {
    match (state, cmd) {
        (EngineState::Idle, EngineCommand::Start) => EngineState::Running,
        (EngineState::Running, EngineCommand::Pause) => EngineState::Paused,
        (EngineState::Running, EngineCommand::Stop) => EngineState::Idle,
        (EngineState::Paused, EngineCommand::Start) => EngineState::Running,
        (EngineState::Paused, EngineCommand::Stop) => EngineState::Idle,
        _ => state,
    }
}

/// The scan parameters: the two corners of the screen area (in any order), the
/// vertical distance between two rows, the horizontal distance between two
/// columns (a distance that is not positive counts as 1), and the time that one
/// full pass over the area takes, in nanoseconds.
#[derive(Debug, Clone, Copy)]
pub struct ScanParams {
    pub start_x: i32,
    pub start_y: i32,
    pub end_x: i32,
    pub end_y: i32,
    pub y_step_pixels: i32,
    pub x_shift_pixels: i32,
    pub total_time_nanos: u64,
}

impl Default for ScanParams {
    /// The area from (100, 100) to (200, 200), in steps of 20 pixels, in five seconds.
    fn default() -> (p: Self)
        ensures
            p.start_x == 100 && p.start_y == 100,
            p.end_x == 200 && p.end_y == 200,
            p.y_step_pixels == 20 && p.x_shift_pixels == 20,
            p.total_time_nanos == 5_000_000_000,
    {
        ScanParams {
            start_x: 100,
            start_y: 100,
            end_x: 200,
            end_y: 200,
            y_step_pixels: 20,
            x_shift_pixels: 20,
            total_time_nanos: 5_000_000_000,
        }
    }
}

/// The engine's state machine.
pub struct StateMachine {
    pub state: EngineState,
}

impl StateMachine {
    /// A machine in the `Idle` state.
    pub fn new() -> (sm: Self)
        ensures
            sm.state == EngineState::Idle,
    {
        StateMachine { state: EngineState::Idle }
    }

    /// Applies `cmd`: takes a valid transition, ignores an invalid one.
    pub fn apply(&mut self, cmd: EngineCommand)
        ensures
            final(self).state == transition(old(self).state, cmd),
    {
        match (self.state, cmd) {
            (EngineState::Idle, EngineCommand::Start) => self.state = EngineState::Running,
            (EngineState::Running, EngineCommand::Pause) => self.state = EngineState::Paused,
            (EngineState::Running, EngineCommand::Stop) => self.state = EngineState::Idle,
            (EngineState::Paused, EngineCommand::Start) => self.state = EngineState::Running,
            (EngineState::Paused, EngineCommand::Stop) => self.state = EngineState::Idle,
            _ => {},
        }
    }
}

/// The state after a batch of commands has been drained from the channel:
/// only the last command of the batch is applied; an empty batch changes nothing.
pub open spec fn apply_last(state: EngineState, cmds: Seq<EngineCommand>) -> EngineState {
    if cmds.len() == 0 {
        state
    } else {
        transition(state, cmds.last())
    }
}

/// `Start` always leaves the engine running, and `Stop` always leaves it idle,
/// whatever state it was in.
pub proof fn lemma_start_runs_stop_idles(state: EngineState)
    ensures
        transition(state, EngineCommand::Start) == EngineState::Running,
        transition(state, EngineCommand::Stop) == EngineState::Idle,
{
}

/// `Pause` only pauses a running engine; in any other state it is ignored.
/// The engine is paused after a command only if it was paused before or the
/// command paused it while it ran.
pub proof fn lemma_pause_only_from_running(state: EngineState, cmd: EngineCommand)
    ensures
        transition(state, EngineCommand::Pause) == (if state == EngineState::Running {
            EngineState::Paused
        } else {
            state
        }),
        transition(state, cmd) == EngineState::Paused ==> state == EngineState::Paused || (state
            == EngineState::Running && cmd == EngineCommand::Pause),
{
}

/// Giving the same command twice has the effect of giving it once: a command
/// repeated by a held-down key changes nothing more.
pub proof fn lemma_command_idempotent(state: EngineState, cmd: EngineCommand)
    ensures
        transition(transition(state, cmd), cmd) == transition(state, cmd),
{
}

} // verus!
