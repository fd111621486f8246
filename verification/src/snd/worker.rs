//! How the streams of a running sound device are restored and reset, and when its worker ends.

use crate::snd::{VIRTIO_SND_R_PCM_PREPARE, VIRTIO_SND_R_PCM_START, VIRTIO_SND_R_PCM_STOP};
use vstd::prelude::*;

verus! {

#[derive(Copy, Clone, Debug, PartialEq, Eq, Structural)]
pub enum WorkerStatus {
    Pause,
    Running,
    Quit,
}

/// Which of the tasks of a worker ended first.
#[derive(Copy, Clone, Debug, PartialEq, Eq, Structural)]
pub enum Ended {
    /// A task of the device: the host's or the guest's control messages, playback or capture, or
    /// the replies to either; with or without an error.
    Task,
    /// The device is to stop.
    Kill,
    /// The executor of the tasks failed.
    Executor,
}

/// What the loop of a worker does.
#[derive(Copy, Clone, Debug, PartialEq, Eq, Structural)]
pub enum LoopState {
    Continue,
    Break,
}

/// Where the loop of a worker stands.
#[derive(Copy, Clone, Debug, PartialEq, Eq, Structural)]
pub enum WorkerStep {
    /// Run the tasks until one of them ends.
    Run,
    /// Tell the other tasks to end, and wait for them.
    ShutDown,
    /// Reset the streams.
    Reset,
    /// Save the state of the streams, and return.
    Save,
}

/// What came of a step.
#[derive(Copy, Clone, Debug, PartialEq, Eq, Structural)]
pub enum StepResult {
    Ran(Ended),
    /// Whether the executor brought the step to its end.
    Executed(bool),
}

/// The loop goes on after a task ended, unless the device is to stop or the other tasks did not end
/// when they were told to.
pub open spec fn loop_state(ended: Ended, shut_down: bool) -> LoopState {
    if ended != Ended::Kill && shut_down {
        LoopState::Continue
    } else {
        LoopState::Break
    }
}

/// Whether the loop goes on after a task ended.
pub fn run_worker_once(ended: Ended, shut_down: bool) -> (r: LoopState)
    ensures
        r == loop_state(ended, shut_down),
{
    match ended {
        Ended::Kill => LoopState::Break,
        Ended::Task | Ended::Executor => if shut_down {
            LoopState::Continue
        } else {
            LoopState::Break
        },
    }
}

/// The step that follows.
pub open spec fn next_step(step: WorkerStep, result: StepResult) -> WorkerStep {
    match (step, result) {
        (WorkerStep::Run, StepResult::Ran(Ended::Kill)) => WorkerStep::Save,
        (WorkerStep::Run, StepResult::Ran(_)) => WorkerStep::ShutDown,
        (WorkerStep::ShutDown, StepResult::Executed(true)) => WorkerStep::Reset,
        (WorkerStep::Reset, StepResult::Executed(true)) => WorkerStep::Run,
        _ => WorkerStep::Save,
    }
}

/// The step that follows: a task that ends has the streams reset and all tasks run again, until the
/// device is to stop or the executor fails to shut down or to reset.
pub fn run_worker(step: WorkerStep, result: StepResult) -> (r: WorkerStep)
    ensures
        r == next_step(step, result),
{
    match step {
        WorkerStep::Run => match result {
            StepResult::Ran(Ended::Kill) => WorkerStep::Save,
            StepResult::Ran(_) => WorkerStep::ShutDown,
            StepResult::Executed(_) => WorkerStep::Save,
        },
        WorkerStep::ShutDown => match result {
            StepResult::Executed(true) => WorkerStep::Reset,
            _ => WorkerStep::Save,
        },
        WorkerStep::Reset => match result {
            StepResult::Executed(true) => WorkerStep::Run,
            _ => WorkerStep::Save,
        },
        WorkerStep::Save => WorkerStep::Save,
    }
}

/// The streams are reset exactly where one pass over the tasks says that the loop goes on;
/// otherwise their state is saved, and the loop has ended. The other tasks are not waited for where
/// the device is to stop.
pub proof fn the_loop_goes_on_with_a_reset(ended: Ended, shut_down: bool)
    ensures
        ({
            let ran = next_step(WorkerStep::Run, StepResult::Ran(ended));
            let last = if ran == WorkerStep::ShutDown {
                next_step(ran, StepResult::Executed(shut_down))
            } else {
                ran
            };
            &&& (ran == WorkerStep::ShutDown) == (ended != Ended::Kill)
            &&& last == (match loop_state(ended, shut_down) {
                LoopState::Continue => WorkerStep::Reset,
                LoopState::Break => WorkerStep::Save,
            })
        }),
{
}

/// What is done to a stream.
#[derive(Copy, Clone, Debug, PartialEq, Eq, Structural)]
pub enum StreamAction {
    Prepare,
    Start,
    Stop,
    Release,
}

/// What brings a new stream to a state that was saved.
pub open spec fn restoring(state: u32) -> Seq<StreamAction> {
    if state == VIRTIO_SND_R_PCM_START {
        seq![StreamAction::Prepare, StreamAction::Start]
    } else if state == VIRTIO_SND_R_PCM_PREPARE {
        seq![StreamAction::Prepare]
    } else {
        Seq::empty()
    }
}

/// What brings a new stream to a state that was saved: one that ran is prepared and started, one
/// that was prepared is prepared.
pub fn restore_actions(state: u32) -> (r: Vec<StreamAction>)
    ensures
        r@ == restoring(state),
{
    let mut out: Vec<StreamAction> = Vec::new();
    if state == VIRTIO_SND_R_PCM_START || state == VIRTIO_SND_R_PCM_PREPARE {
        out.push(StreamAction::Prepare);
    }
    if state == VIRTIO_SND_R_PCM_START {
        out.push(StreamAction::Start);
    }
    assert(out@ =~= restoring(state));
    out
}

/// Resets one stream: it is stopped if it runs, and released if it is then stopped or prepared.
pub struct StreamReset {
    /// Whether it was tried to stop the stream.
    pub stop_tried: bool,
    /// Whether it was tried to release the stream.
    pub release_tried: bool,
}

impl StreamReset {
    /// What is done to the stream next, in the state that it is in now.
    pub open spec fn next(&self, state: u32) -> Option<StreamAction> {
        if self.release_tried {
            None
        } else if !self.stop_tried && state == VIRTIO_SND_R_PCM_START {
            Some(StreamAction::Stop)
        } else if state == VIRTIO_SND_R_PCM_STOP || state == VIRTIO_SND_R_PCM_PREPARE {
            Some(StreamAction::Release)
        } else {
            None
        }
    }

    pub fn new() -> (r: Self)
        ensures
            !r.stop_tried,
            !r.release_tried,
            r.next(0x104) == Some(StreamAction::Stop),
            r.next(0x102) == Some(StreamAction::Release),
            r.next(0x105) == Some(StreamAction::Release),
    {
        StreamReset { stop_tried: false, release_tried: false }
    }

    /// What is done to the stream next, in the state that it is in now. Whether it succeeds does
    /// not matter: it is done once. With nothing left to do, the stream counts as just reset.
    pub fn reset_stream(&mut self, state: u32) -> (r: Option<StreamAction>)
        ensures
            r == old(self).next(state),
            final(self).stop_tried == (old(self).stop_tried || r == Some(StreamAction::Stop)),
            final(self).release_tried == (old(self).release_tried || r == Some(
                StreamAction::Release,
            )),
            r is Some ==> final(self).next(state) != r,
            r == Some(StreamAction::Release) ==> final(self).next(state) is None,
    {
        if self.release_tried {
            return None;
        }
        if !self.stop_tried && state == VIRTIO_SND_R_PCM_START {
            self.stop_tried = true;
            return Some(StreamAction::Stop);
        }
        if state == VIRTIO_SND_R_PCM_STOP || state == VIRTIO_SND_R_PCM_PREPARE {
            self.release_tried = true;
            return Some(StreamAction::Release);
        }
        None
    }
}

/// A stream that runs, and stops when told to, is stopped and released.
pub proof fn a_running_stream_is_stopped_and_released()
    ensures
        ({
            let fresh = StreamReset { stop_tried: false, release_tried: false };
            let stopped = StreamReset { stop_tried: true, release_tried: false };
            let released = StreamReset { stop_tried: true, release_tried: true };
            &&& fresh.next(VIRTIO_SND_R_PCM_START) == Some(StreamAction::Stop)
            &&& stopped.next(VIRTIO_SND_R_PCM_STOP) == Some(StreamAction::Release)
            &&& forall|state: u32| released.next(state) is None
            &&& stopped.next(VIRTIO_SND_R_PCM_START) is None
        }),
{
}

/// A stream is only started after it was prepared.
pub proof fn only_prepared_streams_are_started(state: u32, i: int)
    requires
        0 <= i < restoring(state).len(),
        restoring(state)[i] == StreamAction::Start,
    ensures
        i > 0,
        restoring(state)[i - 1] == StreamAction::Prepare,
{
}

/// A loop that saved the state of the streams has ended.
pub proof fn the_worker_ends_once(result: StepResult)
    ensures
        next_step(WorkerStep::Save, result) == WorkerStep::Save,
        next_step(WorkerStep::Run, StepResult::Ran(Ended::Kill)) == WorkerStep::Save,
{
}

/// The state of a stream after something was done to it that it allows; zero is the state of a new
/// one, and one that was released is like it.
pub open spec fn stream_after(state: u32, action: StreamAction) -> u32 {
    match action {
        StreamAction::Prepare => 0x102,
        StreamAction::Start => 0x104,
        StreamAction::Stop => 0x105,
        StreamAction::Release => 0,
    }
}

/// The stream allows that: it is started when it is prepared, stopped when it runs, and released when
/// it is prepared or stopped.
pub open spec fn stream_allows(state: u32, action: StreamAction) -> bool {
    match action {
        StreamAction::Prepare => state == 0 || state == 0x102,
        StreamAction::Start => state == 0x102 || state == 0x105,
        StreamAction::Stop => state == 0x104,
        StreamAction::Release => state == 0x102 || state == 0x105,
    }
}

/// The state of a new stream after some actions; none, where it does not allow one of them.
pub open spec fn stream_after_all(actions: Seq<StreamAction>) -> Option<u32>
    decreases actions.len(),
{
    if actions.len() == 0 {
        Some(0)
    } else {
        match stream_after_all(actions.drop_last()) {
            Some(s) if stream_allows(s, actions.last()) => Some(stream_after(s, actions.last())),
            _ => None,
        }
    }
}

/// A stream that ran or was prepared when its state was saved is so again; any other is new again.
pub proof fn streams_are_restored_to_their_state(state: u32)
    ensures
        stream_after_all(restoring(state)) == Some(
            if state == 0x104 || state == 0x102 {
                state
            } else {
                0
            },
        ),
{
    reveal_with_fuel(stream_after_all, 4);
    let r = restoring(state);
    if state == 0x104 {
        assert(r.drop_last() =~= seq![StreamAction::Prepare]);
        assert(r.drop_last().drop_last() =~= Seq::<StreamAction>::empty());
    } else if state == 0x102 {
        assert(r.drop_last() =~= Seq::<StreamAction>::empty());
    }
}

/// What a reset does to a stream, the stream allows; while it does as it is told, a stream that holds
/// anything is new again once there is nothing left to do.
pub proof fn resets_end_with_a_new_stream(state: u32)
    ensures
        ({
            let fresh = StreamReset { stop_tried: false, release_tried: false };
            let stopped = StreamReset { stop_tried: true, release_tried: false };
            let held = state == 0x102 || state == 0x104 || state == 0x105;
            &&& fresh.next(state) matches Some(a) ==> stream_allows(state, a) && (a is Stop || a
                is Release)
            &&& held <==> fresh.next(state) is Some
            &&& fresh.next(state) matches Some(a) ==> (a is Release ==> stream_after(state, a) == 0)
            &&& fresh.next(state) matches Some(a) ==> (a is Stop ==> (stopped.next(
                stream_after(state, a),
            ) matches Some(b) && b is Release && stream_allows(stream_after(state, a), b)
                && stream_after(stream_after(state, a), b) == 0))
        }),
{
}

/// Whatever ends while the device is to go on, everything is shut down, reset and run again, as long
/// as shutting down and resetting succeed; where one of them fails, or the device is to stop, the state
/// of the streams is saved, and that is the end.
pub proof fn tasks_run_again_after_a_reset(ended: Ended)
    ensures
        ended is Kill ==> next_step(WorkerStep::Run, StepResult::Ran(ended)) is Save,
        !(ended is Kill) ==> next_step(
            next_step(
                next_step(WorkerStep::Run, StepResult::Ran(ended)),
                StepResult::Executed(true),
            ),
            StepResult::Executed(true),
        ) is Run,
        !(ended is Kill) ==> next_step(
            next_step(WorkerStep::Run, StepResult::Ran(ended)),
            StepResult::Executed(true),
        ) is Reset,
        forall|step: WorkerStep|
            !(step is Run) ==> #[trigger] next_step(step, StepResult::Executed(false)) is Save,
        loop_state(ended, false) is Break,
        loop_state(ended, true) is Break <==> ended is Kill,
{
}

} // verus!
