use vstd::prelude::*;
use super::{EngineCommand, EngineState, ScanParams, StateMachine, transition, apply_last};
use super::zigzag::{
    cycle_points, cycle_fits, generate_cycle_points, lemma_cycle_points_cover,
    lemma_cycle_points_corners, lemma_every_grid_column_scanned, lower, upper, effective_step,
};

verus! {

/// Where the engine's loop stands.
#[derive(Debug, Clone, Copy, PartialEq, Eq, Structural)]
pub enum Phase {
    /// Idle: blocked until a command arrives.
    Waiting,
    /// About to start a pass: needs the current scan parameters.
    NeedParams,
    /// In a pass, before the point at `next`: drains the pending commands.
    Polling,
    /// In a pass, paused: blocked until a command arrives.
    AwaitingResume,
    /// In a pass, running: clicks the point at `next`.
    Clicking,
    /// The command channel is closed: the loop has ended.
    Finished,
}

/// What the surrounding loop has to do next.
#[derive(Debug, Clone, Copy, PartialEq, Eq, Structural)]
pub enum Action {
    /// Block until a command arrives, then drain the others that are pending;
    /// hand back all of them, or `Disconnected`.
    WaitForCommands,
    /// Read the current scan parameters; hand back `Params`.
    ReadParams,
    /// Drain the pending commands without blocking; hand back all of them
    /// (possibly none).
    PollCommands,
    /// Note the time, block until a command arrives, then drain the others
    /// that are pending; hand back all of them, or `Disconnected`.
    WaitWhilePaused,
    /// Sleep until `offset_nanos` after the start of the pass, move the mouse
    /// to `(x, y)` and click the left button; hand back `Clicked`.
    Click { x: i32, y: i32, offset_nanos: u128 },
    /// Leave the loop.
    Exit,
}

/// What the surrounding loop hands back after an action.
#[derive(Debug)]
pub enum Event {
    /// The commands received, in the order of arrival.
    Commands(Vec<EngineCommand>),
    /// The command channel is closed.
    Disconnected,
    /// The scan parameters that were read.
    Params(ScanParams),
    /// The click was made.
    Clicked,
}

/// What the surrounding loop has to do besides the next action.
#[derive(Debug, Clone, Copy, PartialEq, Eq, Structural)]
pub struct Effects {
    /// Publish the machine's new state to the shared state.
    pub publish_state: bool,
    /// A pass starts: the start of the pass is now.
    pub restart_clock: bool,
    /// The pass resumes: move the start of the pass later by the time spent paused.
    pub resume_clock: bool,
}

/// Nothing besides the next action.
pub open spec fn no_effects() -> Effects {
    Effects { publish_state: false, restart_clock: false, resume_clock: false }
}

/// The time between two clicks of a pass of `n` points that takes `total`
/// nanoseconds: the pass is divided into `n - 1` equal intervals, each rounded
/// to the nearest nanosecond (a half upwards), or is one interval where it has
/// one point.
pub open spec fn click_interval(total: u64, n: nat) -> int {
    if n > 1 {
        (total + (n - 1) / 2) / (n - 1)
    } else {
        total as int
    }
}

/// `total / d` rounded to the nearest integer, a half upwards, is the floor
/// quotient, plus one where the remainder is at least half of `d`; it is at
/// most `total + d / 2` once multiplied by `d`.
proof fn lemma_rounded_quotient(total: int, d: int)
    requires
        total >= 0,
        d >= 1,
    ensures
        (total + d / 2) / d == (if total % d >= d - total % d {
            total / d + 1
        } else {
            total / d
        }),
        0 <= total / d,
        ((total + d / 2) / d) * d <= total + d / 2,
{
    vstd::arithmetic::div_mod::lemma_fundamental_div_mod(total, d);
    vstd::arithmetic::div_mod::lemma_mod_pos_bound(total, d);
    vstd::arithmetic::div_mod::lemma_fundamental_div_mod(d, 2);
    vstd::arithmetic::div_mod::lemma_mod_pos_bound(d, 2);
    let q = total / d;
    let r = total % d;
    let h = d / 2;
    assert(q * d + r == total) by (nonlinear_arith)
        requires
            total == d * q + r,
    ;
    assert(q >= 0) by (nonlinear_arith)
        requires
            q * d + r == total,
            total >= 0,
            d >= 1,
            r < d,
    ;
    assert((q + 1) * d == q * d + d) by (nonlinear_arith);
    if r >= d - r {
        vstd::arithmetic::div_mod::lemma_fundamental_div_mod_converse_div(
            total + h,
            d,
            q + 1,
            r + h - d,
        );
    } else {
        vstd::arithmetic::div_mod::lemma_fundamental_div_mod_converse_div(total + h, d, q, r + h);
    }
}

/// The phase that a pass goes on in after its commands were applied.
pub open spec fn phase_for(state: EngineState) -> Phase {
    match state {
        EngineState::Idle => Phase::Waiting,
        EngineState::Paused => Phase::AwaitingResume,
        EngineState::Running => Phase::Clicking,
    }
}

/// The decisions of the engine's loop, apart from the waiting, the reading
/// and the clicking, which the surrounding loop does.
pub struct Engine {
    pub machine: StateMachine,
    pub phase: Phase,
    /// The points of the current pass.
    pub points: Vec<(i32, i32)>,
    /// The index of the next point of the pass.
    pub next: usize,
    /// The time between two clicks of the pass, in nanoseconds.
    pub interval_nanos: u64,
    /// The time that the pass takes, in nanoseconds.
    pub pass_nanos: u64,
}

impl Engine {
    /// The phase agrees with the machine's state, and within a pass the next
    /// point exists and every click of the pass falls within its time, up to
    /// half a nanosecond of rounding per interval.
    pub open spec fn wf(&self) -> bool {
        let in_pass = self.phase == Phase::Polling || self.phase == Phase::AwaitingResume
            || self.phase == Phase::Clicking;
        &&& self.phase == Phase::Waiting ==> self.machine.state == EngineState::Idle
        &&& self.phase == Phase::NeedParams ==> self.machine.state != EngineState::Idle
        &&& self.phase == Phase::Polling ==> self.machine.state != EngineState::Idle
        &&& self.phase == Phase::AwaitingResume ==> self.machine.state == EngineState::Paused
        &&& self.phase == Phase::Clicking ==> self.machine.state == EngineState::Running
        &&& in_pass ==> self.next < self.points.len()
        &&& in_pass ==> self.interval_nanos * (self.points.len() - 1) <= self.pass_nanos + (
        self.points.len() - 1) / 2
    }

    /// The action that the engine asks for.
    pub open spec fn action(&self) -> Action {
        match self.phase {
            Phase::Waiting => Action::WaitForCommands,
            Phase::NeedParams => Action::ReadParams,
            Phase::Polling => Action::PollCommands,
            Phase::AwaitingResume => Action::WaitWhilePaused,
            Phase::Clicking => Action::Click {
                x: self.points@[self.next as int].0,
                y: self.points@[self.next as int].1,
                offset_nanos: (self.interval_nanos * ((self.next as u32) as int)) as u128,
            },
            Phase::Finished => Action::Exit,
        }
    }

    /// `event` can be handed to an engine in state `self`: the parameters
    /// that start a pass describe a scan that can be walked within `i32`.
    pub open spec fn accepts(&self, event: Event) -> bool {
        self.phase == Phase::NeedParams ==> match event {
            Event::Params(p) => cycle_fits(p),
            _ => true,
        }
    }

    /// The engine `post` with effects `eff` is what handling `event` makes of
    /// the engine `pre`. An event that the phase does not wait for is ignored.
    pub open spec fn handled(pre: Engine, event: Event, post: Engine, eff: Effects) -> bool {
        let ignored = post == pre && eff == no_effects();
        let same_pass = post.points == pre.points && post.next == pre.next && post.interval_nanos
            == pre.interval_nanos && post.pass_nanos == pre.pass_nanos;
        let state = pre.machine.state;
        match (pre.phase, event) {
            (Phase::Waiting, Event::Commands(cmds)) => if cmds@.len() == 0 {
                ignored
            } else {
                let s = transition(state, cmds@.last());
                &&& post.machine.state == s
                &&& post.phase == (if s == EngineState::Idle {
                    Phase::Waiting
                } else {
                    Phase::NeedParams
                })
                &&& same_pass
                &&& eff == Effects { publish_state: true, ..no_effects() }
            },
            (Phase::Waiting, Event::Disconnected) => {
                &&& post.machine.state == state
                &&& post.phase == Phase::Finished
                &&& same_pass
                &&& eff == no_effects()
            },
            (Phase::NeedParams, Event::Params(p)) => {
                &&& post.machine.state == state
                &&& post.phase == Phase::Polling
                &&& post.points@ == cycle_points(p)
                &&& post.next == 0
                &&& post.interval_nanos == click_interval(p.total_time_nanos, cycle_points(p).len())
                &&& post.pass_nanos == p.total_time_nanos
                &&& eff == Effects { restart_clock: true, ..no_effects() }
            },
            (Phase::Polling, Event::Commands(cmds)) => {
                let s = apply_last(state, cmds@);
                &&& post.machine.state == s
                &&& post.phase == phase_for(s)
                &&& same_pass
                &&& eff == Effects { publish_state: cmds@.len() > 0, ..no_effects() }
            },
            (Phase::AwaitingResume, Event::Commands(cmds)) => if cmds@.len() == 0 {
                ignored
            } else {
                let s = transition(state, cmds@.last());
                &&& post.machine.state == s
                &&& post.phase == (if s == EngineState::Idle {
                    Phase::Waiting
                } else {
                    Phase::Polling
                })
                &&& same_pass
                &&& eff == Effects {
                    publish_state: true,
                    resume_clock: s != EngineState::Idle,
                    ..no_effects()
                }
            },
            (Phase::AwaitingResume, Event::Disconnected) => {
                &&& post.machine.state == state
                &&& post.phase == Phase::Finished
                &&& same_pass
                &&& eff == no_effects()
            },
            (Phase::Clicking, Event::Clicked) => {
                &&& post.machine.state == state
                &&& post.next == pre.next + 1
                &&& post.phase == (if pre.next + 1 < pre.points.len() {
                    Phase::Polling
                } else {
                    Phase::NeedParams
                })
                &&& post.points == pre.points
                &&& post.interval_nanos == pre.interval_nanos
                &&& post.pass_nanos == pre.pass_nanos
                &&& eff == no_effects()
            },
            _ => ignored,
        }
    }

    /// An idle engine that waits for a command, with no pass begun: no
    /// points, the next point at 0, and no time given to a pass.
    pub fn new() -> (e: Self)
        ensures
            e.wf(),
            e.machine.state == EngineState::Idle,
            e.phase == Phase::Waiting,
            e.points@.len() == 0,
            e.next == 0,
            e.interval_nanos == 0,
            e.pass_nanos == 0,
    {
        Engine {
            machine: StateMachine::new(),
            phase: Phase::Waiting,
            points: Vec::new(),
            next: 0,
            interval_nanos: 0,
            pass_nanos: 0,
        }
    }

    /// The action that the engine asks for.
    pub fn next_action(&self) -> (a: Action)
        requires
            self.wf(),
        ensures
            a == self.action(),
    {
        match self.phase {
            Phase::Waiting => Action::WaitForCommands,
            Phase::NeedParams => Action::ReadParams,
            Phase::Polling => Action::PollCommands,
            Phase::AwaitingResume => Action::WaitWhilePaused,
            Phase::Clicking => {
                let (x, y) = self.points[self.next];
                let k: u128 = (self.next as u32) as u128;
                let interval: u128 = self.interval_nanos as u128;
                proof {
                    assert(interval * k <= 0xffff_ffff_ffff_ffffu128 * 0xffff_ffffu128)
                        by (nonlinear_arith)
                        requires
                            interval <= 0xffff_ffff_ffff_ffffu128,
                            k <= 0xffff_ffffu128,
                    ;
                }
                Action::Click { x, y, offset_nanos: interval * k }
            },
            Phase::Finished => Action::Exit,
        }
    }

    /// Takes in what the surrounding loop hands back and decides what comes next.
    pub fn handle(&mut self, event: Event) -> (eff: Effects)
        requires
            old(self).wf(),
            old(self).accepts(event),
        ensures
            final(self).wf(),
            Engine::handled(*old(self), event, *final(self), eff),
    {
        let none = Effects { publish_state: false, restart_clock: false, resume_clock: false };
        match self.phase {
            Phase::Waiting => match event {
                Event::Commands(cmds) => {
                    if cmds.len() == 0 {
                        return none;
                    }
                    self.machine.apply(cmds[cmds.len() - 1]);
                    self.phase = match self.machine.state {
                        EngineState::Idle => Phase::Waiting,
                        _ => Phase::NeedParams,
                    };
                    Effects { publish_state: true, ..none }
                },
                Event::Disconnected => {
                    self.phase = Phase::Finished;
                    none
                },
                _ => none,
            },
            Phase::NeedParams => match event {
                Event::Params(p) => {
                    let points = generate_cycle_points(&p);
                    proof {
                        lemma_cycle_points_cover(p);
                    }
                    let n = points.len();
                    let interval: u64 = if n > 1 {
                        let d: u64 = (n - 1) as u64;
                        let q: u64 = p.total_time_nanos / d;
                        let r: u64 = p.total_time_nanos % d;
                        proof {
                            lemma_rounded_quotient(p.total_time_nanos as int, d as int);
                            vstd::arithmetic::div_mod::lemma_fundamental_div_mod(
                                p.total_time_nanos as int,
                                d as int,
                            );
                            assert(q * d + r == p.total_time_nanos) by (nonlinear_arith)
                                requires
                                    p.total_time_nanos == d * q + r,
                            ;
                        }
                        if r >= d - r {
                            proof {
                                assert(q * d <= p.total_time_nanos) by (nonlinear_arith)
                                    requires
                                        q * d + r == p.total_time_nanos,
                                        r >= 0,
                                ;
                                assert(q < 0xffff_ffff_ffff_ffffu64) by (nonlinear_arith)
                                    requires
                                        q * d + r == p.total_time_nanos,
                                        r >= 1,
                                        d >= 1,
                                        q >= 0,
                                        p.total_time_nanos <= 0xffff_ffff_ffff_ffffu64,
                                ;
                            }
                            q + 1
                        } else {
                            q
                        }
                    } else {
                        p.total_time_nanos
                    };
                    proof {
                        if n > 1 {
                            lemma_rounded_quotient(p.total_time_nanos as int, (n - 1) as int);
                        } else {
                            assert(interval * 0 == 0) by (nonlinear_arith);
                        }
                    }
                    self.points = points;
                    self.next = 0;
                    self.interval_nanos = interval;
                    self.pass_nanos = p.total_time_nanos;
                    self.phase = Phase::Polling;
                    Effects { restart_clock: true, ..none }
                },
                _ => none,
            },
            Phase::Polling => match event {
                Event::Commands(cmds) => {
                    let applied = cmds.len() > 0;
                    if applied {
                        self.machine.apply(cmds[cmds.len() - 1]);
                    }
                    self.phase = match self.machine.state {
                        EngineState::Idle => Phase::Waiting,
                        EngineState::Paused => Phase::AwaitingResume,
                        EngineState::Running => Phase::Clicking,
                    };
                    Effects { publish_state: applied, ..none }
                },
                _ => none,
            },
            Phase::AwaitingResume => match event {
                Event::Commands(cmds) => {
                    if cmds.len() == 0 {
                        return none;
                    }
                    self.machine.apply(cmds[cmds.len() - 1]);
                    match self.machine.state {
                        EngineState::Idle => {
                            self.phase = Phase::Waiting;
                            Effects { publish_state: true, ..none }
                        },
                        _ => {
                            self.phase = Phase::Polling;
                            Effects { publish_state: true, resume_clock: true, ..none }
                        },
                    }
                },
                Event::Disconnected => {
                    self.phase = Phase::Finished;
                    none
                },
                _ => none,
            },
            Phase::Clicking => match event {
                Event::Clicked => {
                    self.next = self.next + 1;
                    self.phase = if self.next < self.points.len() {
                        Phase::Polling
                    } else {
                        Phase::NeedParams
                    };
                    none
                },
                _ => none,
            },
            Phase::Finished => none,
        }
    }
}

/// The engine asks for a click only while the machine is running, and then
/// for the next point of the current pass, at `next` intervals after the start
/// of the pass (the index taken modulo 2^32), which is within the time of the
/// pass up to the rounding of the intervals (at most half a nanosecond each).
pub proof fn lemma_clicks_only_while_running(e: Engine)
    requires
        e.wf(),
    ensures
        e.action() matches Action::Click { x, y, offset_nanos } ==> {
            &&& e.machine.state == EngineState::Running
            &&& e.next < e.points@.len()
            &&& (x, y) == e.points@[e.next as int]
            &&& offset_nanos == e.interval_nanos * ((e.next as int) % 0x1_0000_0000int)
            &&& offset_nanos <= e.pass_nanos + (e.points@.len() - 1) / 2
        },
{
    if e.phase == Phase::Clicking {
        let k = (e.next as u32) as u64;
        let n = e.points.len() - 1;
        let nx = e.next as u64;
        assert(k == nx % 0x1_0000_0000) by (bit_vector)
            requires
                k == (nx as u32) as u64,
        ;
        assert(k <= e.next);
        assert(e.interval_nanos * k <= e.interval_nanos * n) by (nonlinear_arith)
            requires
                k <= n,
        ;
    }
}

/// A batch of commands whose last one is `Stop` stops the engine wherever it
/// waits for commands: the machine is idle, the state is published, and the
/// engine waits for the next command; no click follows until a new `Start`.
pub proof fn lemma_stop_halts(pre: Engine, event: Event, post: Engine, eff: Effects)
    requires
        pre.wf(),
        Engine::handled(pre, event, post, eff),
        pre.phase == Phase::Waiting || pre.phase == Phase::Polling || pre.phase
            == Phase::AwaitingResume,
        event matches Event::Commands(cmds) && cmds@.len() > 0 && cmds@.last()
            == EngineCommand::Stop,
    ensures
        post.machine.state == EngineState::Idle,
        post.phase == Phase::Waiting,
        post.action() == Action::WaitForCommands,
        eff.publish_state,
{
}

/// A batch of commands whose last one is `Pause`, drained while a pass runs,
/// pauses the pass before its next click: the engine then waits for a command.
pub proof fn lemma_pause_holds(pre: Engine, event: Event, post: Engine, eff: Effects)
    requires
        pre.wf(),
        Engine::handled(pre, event, post, eff),
        pre.phase == Phase::Polling,
        pre.machine.state == EngineState::Running,
        event matches Event::Commands(cmds) && cmds@.len() > 0 && cmds@.last()
            == EngineCommand::Pause,
    ensures
        post.machine.state == EngineState::Paused,
        post.action() == Action::WaitWhilePaused,
        post.next == pre.next,
        eff.publish_state,
{
}

/// The machine's state never changes unpublished.
pub proof fn lemma_state_changes_are_published(pre: Engine, event: Event, post: Engine, eff: Effects)
    requires
        pre.wf(),
        Engine::handled(pre, event, post, eff),
    ensures
        post.machine.state != pre.machine.state ==> eff.publish_state,
{
}

/// Within a pass the engine moves forward one point per click and never
/// back: only new parameters start a new pass at its first point.
pub proof fn lemma_pass_advances_by_clicks(pre: Engine, event: Event, post: Engine, eff: Effects)
    requires
        pre.wf(),
        Engine::handled(pre, event, post, eff),
        !(event is Params),
    ensures
        post.points == pre.points,
        post.next == pre.next || (pre.phase == Phase::Clicking && event is Clicked && post.next
            == pre.next + 1),
{
}

/// The two clocks of a pass: the start of the pass is set to now exactly when
/// new parameters start a pass, and moved later by the time spent paused
/// exactly when a paused engine is woken by commands and does not stop, that
/// is, stays paused or runs again.
pub proof fn lemma_clock_effects(pre: Engine, event: Event, post: Engine, eff: Effects)
    requires
        pre.wf(),
        Engine::handled(pre, event, post, eff),
    ensures
        eff.restart_clock <==> (pre.phase == Phase::NeedParams && event is Params),
        eff.resume_clock <==> (pre.phase == Phase::AwaitingResume && (event matches Event::Commands(
            cmds,
        ) && cmds@.len() > 0) && post.machine.state != EngineState::Idle),
        eff.resume_clock ==> post.next == pre.next && post.points == pre.points,
{
}

/// A new pass does not depend on what the engine did before: two engines that
/// take in the same parameters to start a pass start the same pass, at its
/// first point, with the same interval and the same effects, and both restart
/// the clock of the pass.
pub proof fn lemma_new_pass_independent_of_history(
    pre1: Engine,
    pre2: Engine,
    p: ScanParams,
    post1: Engine,
    eff1: Effects,
    post2: Engine,
    eff2: Effects,
)
    requires
        pre1.wf(),
        pre2.wf(),
        pre1.phase == Phase::NeedParams,
        pre2.phase == Phase::NeedParams,
        Engine::handled(pre1, Event::Params(p), post1, eff1),
        Engine::handled(pre2, Event::Params(p), post2, eff2),
    ensures
        eff1 == eff2,
        eff1.restart_clock,
        post1.points@ == post2.points@,
        post1.interval_nanos == post2.interval_nanos,
        post1.next == 0 && post2.next == 0,
        post1.pass_nanos == p.total_time_nanos && post2.pass_nanos == p.total_time_nanos,
{
}

/// A new pass covers the area of the parameters it was started with: it
/// starts at the top left corner, reaches all four corners, visits every
/// column of the grid, stays within the area, and its clicks are spread over
/// the time of the pass in intervals that are the time divided by the number
/// of intervals, rounded to the nearest nanosecond (a half upwards).
pub proof fn lemma_new_pass_covers_area(pre: Engine, p: ScanParams, post: Engine, eff: Effects)
    requires
        pre.wf(),
        pre.phase == Phase::NeedParams,
        Engine::handled(pre, Event::Params(p), post, eff),
    ensures
        ({
            let lx = lower(p.start_x, p.end_x);
            let hx = upper(p.start_x, p.end_x);
            let ly = lower(p.start_y, p.end_y);
            let hy = upper(p.start_y, p.end_y);
            let pts = post.points@;
            let d = pts.len() - 1;
            let t = p.total_time_nanos;
            &&& pts.len() >= 1
            &&& pts[0] == (lx, ly)
            &&& pts.contains((lx, hy)) && pts.contains((hx, ly)) && pts.contains((hx, hy))
            &&& forall|k: int|
                0 <= k < pts.len() ==> lx <= (#[trigger] pts[k]).0 <= hx && ly <= pts[k].1 <= hy
            &&& forall|k: int|
                0 <= k && lx + k * effective_step(p.x_shift_pixels) <= hx ==> #[trigger] pts.contains(
                    ((lx + k * effective_step(p.x_shift_pixels)) as i32, ly),
                )
            &&& d == 0 ==> post.interval_nanos == t
            &&& d > 0 ==> 2 * t - d < 2 * (post.interval_nanos * d) <= 2 * t + d
        }),
{
    let lx = lower(p.start_x, p.end_x);
    let hx = upper(p.start_x, p.end_x);
    let sx = effective_step(p.x_shift_pixels);
    let ly = lower(p.start_y, p.end_y);
    lemma_cycle_points_cover(p);
    lemma_cycle_points_corners(p);
    assert forall|k: int| 0 <= k && lx + k * sx <= hx implies #[trigger] post.points@.contains(
        ((lx + k * sx) as i32, ly),
    ) by {
        lemma_every_grid_column_scanned(p, k);
    }
    let d = post.points@.len() - 1;
    let t = p.total_time_nanos as int;
    if d > 0 {
        let h = d / 2;
        vstd::arithmetic::div_mod::lemma_fundamental_div_mod(t + h, d);
        vstd::arithmetic::div_mod::lemma_mod_pos_bound(t + h, d);
        vstd::arithmetic::div_mod::lemma_fundamental_div_mod(d, 2);
        vstd::arithmetic::div_mod::lemma_mod_pos_bound(d, 2);
        let q = (t + h) / d;
        let r = (t + h) % d;
        assert(post.interval_nanos == q);
        assert(2 * t - d < 2 * (q * d) <= 2 * t + d) by (nonlinear_arith)
            requires
                t + h == d * q + r,
                0 <= r < d,
                d == 2 * h + d % 2,
                0 <= d % 2 < 2,
        ;
    }
}

/// A run of the engine: `engines[k + 1]` and `effects[k]` are what handling
/// `events[k]` makes of `engines[k]`; every engine along the run is well formed
/// and every event is accepted.
pub open spec fn is_run(engines: Seq<Engine>, events: Seq<Event>, effects: Seq<Effects>) -> bool {
    &&& engines.len() == events.len() + 1
    &&& effects.len() == events.len()
    &&& forall|k: int| 0 <= k < engines.len() ==> #[trigger] engines[k].wf()
    &&& forall|k: int|
        #![trigger events[k]]
        0 <= k < events.len() ==> engines[k].accepts(events[k]) && Engine::handled(
            engines[k],
            events[k],
            engines[k + 1],
            effects[k],
        )
}

/// A click is made at step `k` of a run: the engine asked for a click and was
/// told that it was made.
pub open spec fn click_made(engines: Seq<Engine>, events: Seq<Event>, k: int) -> bool {
    engines[k].phase == Phase::Clicking && events[k] is Clicked
}

/// `event` hands over a batch of commands whose last one is `Start`.
pub open spec fn takes_in_start(event: Event) -> bool {
    event matches Event::Commands(cmds) && cmds@.len() > 0 && cmds@.last() == EngineCommand::Start
}

/// The engine `e` polled the pending commands, and the batch `event` left it running.
pub open spec fn polled_running(e: Engine, event: Event) -> bool {
    &&& e.phase == Phase::Polling
    &&& event matches Event::Commands(cmds) && apply_last(e.machine.state, cmds@)
        == EngineState::Running
}

/// An engine that is not running (stopped or paused) stays so, and asks for
/// no click, until it takes in a batch of commands whose last one is `Start`.
pub proof fn lemma_no_click_until_start(
    engines: Seq<Engine>,
    events: Seq<Event>,
    effects: Seq<Effects>,
    i: int,
    j: int,
)
    requires
        is_run(engines, events, effects),
        0 <= i <= j < engines.len(),
        engines[i].machine.state != EngineState::Running,
        forall|k: int| i <= k < j ==> !takes_in_start(#[trigger] events[k]),
    ensures
        engines[j].machine.state != EngineState::Running,
        !(engines[j].action() is Click),
    decreases j,
{
    assert(engines[j].wf());
    if j > i {
        lemma_no_click_until_start(engines, events, effects, i, j - 1);
        let k = j - 1;
        assert(!takes_in_start(events[k]));
        assert(Engine::handled(engines[k], events[k], engines[k + 1], effects[k]));
    }
}

/// Once a batch ending in `Stop` is taken in, no click is made until a batch
/// ending in `Start` is taken in.
pub proof fn lemma_stop_holds_until_start(
    engines: Seq<Engine>,
    events: Seq<Event>,
    effects: Seq<Effects>,
    s: int,
    j: int,
)
    requires
        is_run(engines, events, effects),
        0 <= s < j < events.len(),
        engines[s].phase == Phase::Waiting || engines[s].phase == Phase::Polling
            || engines[s].phase == Phase::AwaitingResume,
        events[s] matches Event::Commands(cmds) && cmds@.len() > 0 && cmds@.last()
            == EngineCommand::Stop,
        forall|k: int| s < k < j ==> !takes_in_start(#[trigger] events[k]),
    ensures
        !click_made(engines, events, j),
{
    assert(events[s] == events[s]);
    lemma_stop_halts(engines[s], events[s], engines[s + 1], effects[s]);
    lemma_no_click_until_start(engines, events, effects, s + 1, j);
}

/// After a click is made at step `a`, the engine is asking for a click at a
/// later step `j` only if in between it polled the pending commands and the
/// batch left it running.
proof fn lemma_clicking_reached_by_poll(
    engines: Seq<Engine>,
    events: Seq<Event>,
    effects: Seq<Effects>,
    a: int,
    j: int,
)
    requires
        is_run(engines, events, effects),
        0 <= a < j < engines.len(),
        click_made(engines, events, a),
    ensures
        engines[j].phase == Phase::Clicking ==> exists|k: int|
            a < k < j && #[trigger] polled_running(engines[k], events[k]),
    decreases j,
{
    let k = j - 1;
    assert(Engine::handled(engines[k], events[k], engines[k + 1], effects[k]));
    if j > a + 1 {
        lemma_clicking_reached_by_poll(engines, events, effects, a, j - 1);
        if engines[j].phase == Phase::Clicking && engines[k].phase != Phase::Clicking {
            assert(polled_running(engines[k], events[k]));
        }
    }
}

/// Between two clicks the engine always polls the pending commands: if clicks
/// are made at steps `a < b`, then at some step in between the engine took in
/// the pending commands and they left it running. A `Stop` or `Pause` sent
/// during a click is therefore taken in before the next click.
pub proof fn lemma_poll_between_clicks(
    engines: Seq<Engine>,
    events: Seq<Event>,
    effects: Seq<Effects>,
    a: int,
    b: int,
)
    requires
        is_run(engines, events, effects),
        0 <= a < b < events.len(),
        click_made(engines, events, a),
        click_made(engines, events, b),
    ensures
        exists|k: int| a < k < b && #[trigger] polled_running(engines[k], events[k]),
{
    lemma_clicking_reached_by_poll(engines, events, effects, a, b);
}

/// After a click is made at step `a`, as long as no new parameters are taken
/// in, the pass stays the same and the engine stands beyond the clicked point.
proof fn lemma_pass_moves_on(
    engines: Seq<Engine>,
    events: Seq<Event>,
    effects: Seq<Effects>,
    a: int,
    j: int,
)
    requires
        is_run(engines, events, effects),
        0 <= a < j < engines.len(),
        click_made(engines, events, a),
        forall|k: int| a <= k < j ==> !(#[trigger] events[k] is Params),
    ensures
        engines[j].points == engines[a].points,
        engines[j].next > engines[a].next,
    decreases j,
{
    let k = j - 1;
    assert(!(events[k] is Params));
    lemma_pass_advances_by_clicks(engines[k], events[k], engines[k + 1], effects[k]);
    if j > a + 1 {
        lemma_pass_moves_on(engines, events, effects, a, j - 1);
    }
}

/// The clicks of a pass follow its points in order: two clicks made at steps
/// `a < b` with no new parameters taken in between are of the same pass, the
/// later one at a later point.
pub proof fn lemma_clicks_in_pass_order(
    engines: Seq<Engine>,
    events: Seq<Event>,
    effects: Seq<Effects>,
    a: int,
    b: int,
)
    requires
        is_run(engines, events, effects),
        0 <= a < b < events.len(),
        click_made(engines, events, a),
        click_made(engines, events, b),
        forall|k: int| a <= k < b ==> !(#[trigger] events[k] is Params),
    ensures
        engines[b].points == engines[a].points,
        engines[b].next > engines[a].next,
{
    lemma_pass_moves_on(engines, events, effects, a, b);
}

} // verus!
