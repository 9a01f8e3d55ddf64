use autoclicker::engine::{EngineCommand, EngineState, StateMachine};

#[test]
fn test_initial_state() {
    let sm = StateMachine::new();
    assert_eq!(sm.state, EngineState::Idle);
}

#[test]
fn test_valid_transitions_from_idle() {
    let mut sm = StateMachine::new();
    sm.apply(EngineCommand::Start);
    assert_eq!(sm.state, EngineState::Running);

    let mut sm = StateMachine::new();
    sm.apply(EngineCommand::Pause);
    assert_eq!(sm.state, EngineState::Idle);

    let mut sm = StateMachine::new();
    sm.apply(EngineCommand::Stop);
    assert_eq!(sm.state, EngineState::Idle);
}

#[test]
fn test_valid_transitions_from_running() {
    let mut sm = StateMachine::new();
    sm.state = EngineState::Running;

    sm.apply(EngineCommand::Pause);
    assert_eq!(sm.state, EngineState::Paused);

    sm.state = EngineState::Running;
    sm.apply(EngineCommand::Stop);
    assert_eq!(sm.state, EngineState::Idle);

    sm.state = EngineState::Running;
    sm.apply(EngineCommand::Start);
    assert_eq!(sm.state, EngineState::Running);
}

#[test]
fn test_valid_transitions_from_paused() {
    let mut sm = StateMachine::new();
    sm.state = EngineState::Paused;

    sm.apply(EngineCommand::Start);
    assert_eq!(sm.state, EngineState::Running);

    sm.state = EngineState::Paused;
    sm.apply(EngineCommand::Stop);
    assert_eq!(sm.state, EngineState::Idle);

    sm.state = EngineState::Paused;
    sm.apply(EngineCommand::Pause);
    assert_eq!(sm.state, EngineState::Paused);
}

const ALL_STATES: [EngineState; 3] = [EngineState::Idle, EngineState::Running, EngineState::Paused];
const ALL_COMMANDS: [EngineCommand; 3] = [EngineCommand::Start, EngineCommand::Pause, EngineCommand::Stop];

fn after(state: EngineState, cmd: EngineCommand) -> EngineState {
    let mut sm = StateMachine::new();
    sm.state = state;
    sm.apply(cmd);
    sm.state
}

#[test]
fn start_always_runs_and_stop_always_idles() {
    for s in ALL_STATES {
        assert_eq!(after(s, EngineCommand::Start), EngineState::Running);
        assert_eq!(after(s, EngineCommand::Stop), EngineState::Idle);
    }
}

#[test]
fn pause_only_from_running() {
    for s in ALL_STATES {
        let expected = if s == EngineState::Running { EngineState::Paused } else { s };
        assert_eq!(after(s, EngineCommand::Pause), expected);
        for c in ALL_COMMANDS {
            if after(s, c) == EngineState::Paused {
                assert!(s == EngineState::Paused || (s == EngineState::Running && c == EngineCommand::Pause));
            }
        }
    }
}

#[test]
fn repeated_command_changes_nothing_more() {
    for s in ALL_STATES {
        for c in ALL_COMMANDS {
            assert_eq!(after(after(s, c), c), after(s, c));
        }
    }
}
