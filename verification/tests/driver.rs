use autoclicker::engine::driver::{Action, Effects, Engine, Event};
use autoclicker::engine::{EngineCommand, EngineState, ScanParams};

fn cmds(list: &[EngineCommand]) -> Event {
    Event::Commands(list.to_vec())
}

fn small_params() -> ScanParams {
    ScanParams {
        start_x: 0,
        start_y: 0,
        end_x: 10,
        end_y: 10,
        x_shift_pixels: 5,
        y_step_pixels: 5,
        total_time_nanos: 800,
    }
}

const NONE: Effects = Effects { publish_state: false, restart_clock: false, resume_clock: false };
const PUBLISH: Effects = Effects { publish_state: true, restart_clock: false, resume_clock: false };

#[test]
fn engine_starts_idle_and_waits() {
    let e = Engine::new();
    assert_eq!(e.machine.state, EngineState::Idle);
    assert_eq!(e.next_action(), Action::WaitForCommands);
}

#[test]
fn engine_runs_a_full_pass_then_starts_another() {
    let mut e = Engine::new();
    assert_eq!(e.handle(cmds(&[EngineCommand::Start])), PUBLISH);
    assert_eq!(e.machine.state, EngineState::Running);
    assert_eq!(e.next_action(), Action::ReadParams);
    let eff = e.handle(Event::Params(small_params()));
    assert_eq!(eff, Effects { restart_clock: true, ..NONE });
    let expected = [(0, 0), (0, 5), (0, 10), (5, 10), (5, 5), (5, 0), (10, 0), (10, 5), (10, 10)];
    // 9 points in 800 ns: 8 intervals of 100 ns.
    for (k, &(x, y)) in expected.iter().enumerate() {
        assert_eq!(e.next_action(), Action::PollCommands);
        assert_eq!(e.handle(cmds(&[])), NONE);
        assert_eq!(e.next_action(), Action::Click { x, y, offset_nanos: 100 * k as u128 });
        assert_eq!(e.handle(Event::Clicked), NONE);
    }
    assert_eq!(e.next_action(), Action::ReadParams);
}

#[test]
fn engine_interval_of_single_point_is_the_whole_time() {
    let mut e = Engine::new();
    e.handle(cmds(&[EngineCommand::Start]));
    let mut p = small_params();
    p.end_x = 0;
    p.end_y = 0;
    e.handle(Event::Params(p));
    e.handle(cmds(&[]));
    assert_eq!(e.next_action(), Action::Click { x: 0, y: 0, offset_nanos: 0 });
    assert_eq!(e.interval_nanos, 800);
}

#[test]
fn engine_pause_resume_and_stop() {
    let mut e = Engine::new();
    e.handle(cmds(&[EngineCommand::Start]));
    e.handle(Event::Params(small_params()));
    e.handle(cmds(&[]));
    e.handle(Event::Clicked);
    // Pause before the second point.
    assert_eq!(e.handle(cmds(&[EngineCommand::Pause])), PUBLISH);
    assert_eq!(e.machine.state, EngineState::Paused);
    assert_eq!(e.next_action(), Action::WaitWhilePaused);
    // Resume: the pass goes on at the same point.
    assert_eq!(e.handle(cmds(&[EngineCommand::Start])), Effects { resume_clock: true, ..PUBLISH });
    assert_eq!(e.next_action(), Action::PollCommands);
    e.handle(cmds(&[]));
    assert_eq!(e.next_action(), Action::Click { x: 0, y: 5, offset_nanos: 100 });
    // Stop in the middle of the pass.
    assert_eq!(e.handle(cmds(&[EngineCommand::Start, EngineCommand::Stop])), NONE);
    e.handle(Event::Clicked);
    assert_eq!(e.handle(cmds(&[EngineCommand::Start, EngineCommand::Stop])), PUBLISH);
    assert_eq!(e.machine.state, EngineState::Idle);
    assert_eq!(e.next_action(), Action::WaitForCommands);
}

#[test]
fn engine_only_last_command_of_a_batch_counts() {
    let mut e = Engine::new();
    e.handle(cmds(&[EngineCommand::Start, EngineCommand::Stop]));
    assert_eq!(e.machine.state, EngineState::Idle);
    assert_eq!(e.next_action(), Action::WaitForCommands);
    e.handle(cmds(&[EngineCommand::Stop, EngineCommand::Start]));
    assert_eq!(e.machine.state, EngineState::Running);
    assert_eq!(e.next_action(), Action::ReadParams);
}

#[test]
fn engine_stops_when_paused_and_told_to_stop() {
    let mut e = Engine::new();
    e.handle(cmds(&[EngineCommand::Start]));
    e.handle(Event::Params(small_params()));
    e.handle(cmds(&[EngineCommand::Pause]));
    assert_eq!(e.handle(cmds(&[EngineCommand::Stop])), PUBLISH);
    assert_eq!(e.next_action(), Action::WaitForCommands);
}

#[test]
fn engine_disconnection() {
    let mut e = Engine::new();
    assert_eq!(e.handle(Event::Disconnected), NONE);
    assert_eq!(e.next_action(), Action::Exit);

    // While paused, the engine waits for a command as it does while idle:
    // a closed channel ends the loop.
    let mut e = Engine::new();
    e.handle(cmds(&[EngineCommand::Start]));
    e.handle(Event::Params(small_params()));
    e.handle(cmds(&[EngineCommand::Pause]));
    assert_eq!(e.next_action(), Action::WaitWhilePaused);
    assert_eq!(e.handle(Event::Disconnected), NONE);
    assert_eq!(e.machine.state, EngineState::Paused);
    assert_eq!(e.next_action(), Action::Exit);
}

#[test]
fn engine_ignores_unexpected_events() {
    let mut e = Engine::new();
    assert_eq!(e.handle(Event::Clicked), NONE);
    assert_eq!(e.handle(cmds(&[])), NONE);
    assert_eq!(e.next_action(), Action::WaitForCommands);
    e.handle(cmds(&[EngineCommand::Start]));
    assert_eq!(e.handle(cmds(&[EngineCommand::Stop])), NONE);
    assert_eq!(e.machine.state, EngineState::Running);
    assert_eq!(e.next_action(), Action::ReadParams);
}

#[test]
fn engine_default_interval() {
    let mut e = Engine::new();
    e.handle(cmds(&[EngineCommand::Start]));
    e.handle(Event::Params(ScanParams::default()));
    // 36 points in five seconds: 35 intervals of 142857142.857 ns, rounded.
    assert_eq!(e.interval_nanos, 142_857_143);
}

fn interval_for(total: u64) -> u64 {
    let mut e = Engine::new();
    e.handle(cmds(&[EngineCommand::Start]));
    let mut p = small_params();
    p.total_time_nanos = total;
    e.handle(Event::Params(p));
    e.interval_nanos
}

#[test]
fn engine_interval_rounds_to_nearest() {
    // 9 points: 8 intervals.
    assert_eq!(interval_for(800), 100);
    assert_eq!(interval_for(803), 100);
    assert_eq!(interval_for(805), 101);
    assert_eq!(interval_for(804), 101);
    assert_eq!(interval_for(3), 0);
    assert_eq!(interval_for(4), 1);
    assert_eq!(interval_for(u64::MAX), u64::MAX / 8 + 1);
}

#[test]
fn engine_click_offsets_beyond_u64_time() {
    // The rounded intervals may end a little after the pass's time, even at the
    // largest time; the offsets are exact.
    let mut e = Engine::new();
    e.handle(cmds(&[EngineCommand::Start]));
    let mut p = small_params();
    p.total_time_nanos = u64::MAX;
    e.handle(Event::Params(p));
    for k in 0..9u128 {
        e.handle(cmds(&[]));
        match e.next_action() {
            Action::Click { offset_nanos, .. } => assert_eq!(offset_nanos, k * (u64::MAX / 8 + 1) as u128),
            other => panic!("expected a click, got {:?}", other),
        }
        e.handle(Event::Clicked);
    }
}
