//! The registry of tasks and the decisions of the supervision protocol.
//!
//! Each operation takes the event the host observed (a start request, a
//! prompt from the engine, the end of a run, ...) and returns what the host
//! must do next: the snapshot to hand to observers, whether to signal a
//! cancellation, what to answer the engine. The host holds a `Supervisor`
//! behind one lock and never holds that lock across a blocking wait.

use vstd::prelude::*;
use crate::permission::{PermissionPrompt, PermissionsResponse, PromptView};
use crate::task::{active_prompt, settle, task_wf, Task, TaskState, TaskView};

verus! {

/// One registry entry, as plain values: the task record and the state of the
/// two channels kept for it while it runs.
pub struct SlotView {
    pub task: TaskView,
    /// The permission channel is open: a decision can still reach the worker.
    pub channel_open: bool,
    /// A stop was signalled and the worker has not reconciled yet.
    pub cancel_requested: bool,
}

/// How the engine's run ended, as the worker observed it.
#[derive(Debug)]
pub enum Outcome {
    /// The script and its pending work finished without error.
    Succeeded,
    /// The engine reported this error.
    Failed(String),
    /// The cancellation signal won the race.
    Cancelled,
}

/// Why a task could not be started.
#[derive(Debug)]
pub enum StartError {
    /// A record with this id is still present.
    Duplicate,
    /// The source could not be written to its working location.
    Staging(String),
}

/// A slot is consistent when its record is well formed, a finished task holds
/// no channel, and a stop closes the permission channel.
pub open spec fn slot_wf(s: SlotView) -> bool {
    &&& task_wf(s.task)
    &&& s.task.state.spec_is_terminal() ==> !s.channel_open && !s.cancel_requested
    &&& s.cancel_requested ==> !s.channel_open
}

/// Every slot is consistent and no two records share an id.
pub open spec fn registry_wf(s: Seq<SlotView>) -> bool {
    &&& forall|i: int| 0 <= i < s.len() ==> slot_wf(#[trigger] s[i])
    &&& forall|i: int, j: int|
        0 <= i < s.len() && 0 <= j < s.len() && i != j ==> (#[trigger] s[i]).task.id != (#[trigger] s[j]).task.id
}

/// The position of the record with this id, or -1.
pub open spec fn index_of(s: Seq<SlotView>, id: Seq<char>) -> int {
    if exists|i: int| 0 <= i < s.len() && (#[trigger] s[i]).task.id == id {
        choose|i: int| 0 <= i < s.len() && (#[trigger] s[i]).task.id == id
    } else {
        -1
    }
}

pub open spec fn is_live(s: Seq<SlotView>, id: Seq<char>) -> bool {
    index_of(s, id) >= 0 && !s[index_of(s, id)].task.state.spec_is_terminal()
}

pub open spec fn fresh_task(id: Seq<char>, state: TaskState, error: Seq<char>) -> TaskView {
    TaskView { id, state, error, return_value: Seq::empty(), history: Seq::empty() }
}

/// `s` with the record of `id` (which must be present) replaced by `t`.
pub open spec fn with_task(s: Seq<SlotView>, id: Seq<char>, t: TaskView) -> Seq<SlotView> {
    let i = index_of(s, id);
    s.update(i, SlotView { task: t, ..s[i] })
}

/// Starting: refused while a record with the id is present; otherwise a new
/// record, in the error state if staging failed, else running with an open
/// permission channel.
pub open spec fn spec_start(s: Seq<SlotView>, id: Seq<char>, staging: Result<(), Seq<char>>) -> Seq<
    SlotView,
> {
    if index_of(s, id) >= 0 {
        s
    } else {
        match staging {
            Ok(_) => s.push(
                SlotView {
                    task: fresh_task(id, TaskState::Running, Seq::empty()),
                    channel_open: true,
                    cancel_requested: false,
                },
            ),
            Err(e) => s.push(
                SlotView {
                    task: fresh_task(id, TaskState::Error, e),
                    channel_open: false,
                    cancel_requested: false,
                },
            ),
        }
    }
}

pub open spec fn staging_view(staging: Result<(), String>) -> Result<(), Seq<char>> {
    match staging {
        Ok(_) => Ok(()),
        Err(e) => Err(e@),
    }
}

/// A stop takes effect on a live task that was not stopped yet.
pub open spec fn stop_signals(s: Seq<SlotView>, id: Seq<char>) -> bool {
    is_live(s, id) && !s[index_of(s, id)].cancel_requested
}

/// Stopping: the permission channel closes and a cancellation is pending.
pub open spec fn spec_stop(s: Seq<SlotView>, id: Seq<char>) -> Seq<SlotView> {
    let i = index_of(s, id);
    if stop_signals(s, id) {
        s.update(i, SlotView { channel_open: false, cancel_requested: true, ..s[i] })
    } else {
        s
    }
}

/// A prompt makes the worker wait when the task runs and its channel is open.
pub open spec fn prompt_waits(s: Seq<SlotView>, id: Seq<char>) -> bool {
    let i = index_of(s, id);
    i >= 0 && s[i].task.state == TaskState::Running && s[i].channel_open
}

/// A prompt is refused at once when the task runs but its channel was
/// closed by a stop: no decision could reach the worker any more.
pub open spec fn prompt_refused(s: Seq<SlotView>, id: Seq<char>) -> bool {
    let i = index_of(s, id);
    i >= 0 && s[i].task.state == TaskState::Running && !s[i].channel_open
}

/// Raising a prompt: it joins the history. With the channel open the task
/// waits on it; with the channel closed it is recorded as denied and the
/// task keeps running.
pub open spec fn spec_request(s: Seq<SlotView>, id: Seq<char>, p: PromptView) -> Seq<SlotView> {
    let t = s[index_of(s, id)].task;
    if prompt_waits(s, id) {
        with_task(
            s,
            id,
            TaskView { state: TaskState::WaitingForPermission, history: t.history.push(p), ..t },
        )
    } else if prompt_refused(s, id) {
        with_task(
            s,
            id,
            TaskView {
                history: t.history.push(PromptView { response: Some(PermissionsResponse::Deny), ..p }),
                ..t
            },
        )
    } else {
        s
    }
}

/// What the engine is told: the decision received, or `Deny` when the
/// channel closed without one.
pub open spec fn answer_of(received: Option<PermissionsResponse>) -> PermissionsResponse {
    match received {
        Some(r) => r,
        None => PermissionsResponse::Deny,
    }
}

/// The worker's wait ended: the answer is recorded on the prompt and the task
/// runs again.
pub open spec fn spec_resume(
    s: Seq<SlotView>,
    id: Seq<char>,
    received: Option<PermissionsResponse>,
) -> Seq<SlotView> {
    let i = index_of(s, id);
    let t = s[i].task;
    if i >= 0 && t.state == TaskState::WaitingForPermission {
        with_task(
            s,
            id,
            TaskView {
                state: TaskState::Running,
                history: settle(t.history, answer_of(received)),
                ..t
            },
        )
    } else {
        s
    }
}

/// A decision is owed: the task waits on an unanswered prompt and its
/// channel is open.
pub open spec fn prompt_pending(s: Seq<SlotView>, id: Seq<char>) -> bool {
    let i = index_of(s, id);
    i >= 0 && s[i].channel_open && s[i].task.state == TaskState::WaitingForPermission
        && s[i].task.history.last().response is None
}

/// Deciding: the answer is written on the pending prompt.
pub open spec fn spec_resolve(s: Seq<SlotView>, id: Seq<char>, r: PermissionsResponse) -> Seq<
    SlotView,
> {
    let t = s[index_of(s, id)].task;
    if prompt_pending(s, id) {
        with_task(s, id, TaskView { history: settle(t.history, r), ..t })
    } else {
        s
    }
}

/// A reported value replaces the previous one of a present record, whatever
/// its state; the state itself never changes.
pub open spec fn spec_report(s: Seq<SlotView>, id: Seq<char>, v: Seq<char>) -> Seq<SlotView> {
    let t = s[index_of(s, id)].task;
    if index_of(s, id) >= 0 {
        with_task(s, id, TaskView { return_value: v, ..t })
    } else {
        s
    }
}

pub open spec fn outcome_error(o: Outcome) -> Seq<char> {
    match o {
        Outcome::Failed(e) => e@,
        _ => Seq::empty(),
    }
}

/// The terminal state of a run: a signalled stop wins over how the engine
/// ended.
pub open spec fn final_state(cancel_requested: bool, o: Outcome) -> TaskState {
    if cancel_requested {
        TaskState::Stopped
    } else {
        match o {
            Outcome::Succeeded => TaskState::Completed,
            Outcome::Failed(_) => TaskState::Error,
            Outcome::Cancelled => TaskState::Stopped,
        }
    }
}

/// The record after reconciling the end of its run; a prompt still waited on
/// keeps the answer written on it, else it is denied.
pub open spec fn finished_task(v: SlotView, o: Outcome) -> TaskView {
    let t = v.task;
    let state = final_state(v.cancel_requested, o);
    TaskView {
        state,
        error: if state == TaskState::Error {
            outcome_error(o)
        } else {
            t.error
        },
        history: if t.state == TaskState::WaitingForPermission {
            settle(t.history, answer_of(t.history.last().response))
        } else {
            t.history
        },
        ..t
    }
}

/// Reconciling: the first end reported for a live task makes it terminal and
/// releases its channels; any later one changes nothing.
pub open spec fn spec_finish(s: Seq<SlotView>, id: Seq<char>, o: Outcome) -> Seq<SlotView> {
    let i = index_of(s, id);
    if is_live(s, id) {
        s.update(
            i,
            SlotView { task: finished_task(s[i], o), channel_open: false, cancel_requested: false },
        )
    } else {
        s
    }
}

pub open spec fn is_live_slot(v: SlotView) -> bool {
    !v.task.state.spec_is_terminal()
}

/// Sweeping: the live records stay, in order; the finished ones go.
pub open spec fn spec_sweep(s: Seq<SlotView>) -> Seq<SlotView> {
    s.filter(|v: SlotView| is_live_slot(v))
}

/// The registry.
pub struct Supervisor {
    slots: Vec<Slot>,
}

struct Slot {
    task: Task,
    channel_open: bool,
    cancel_requested: bool,
}

impl View for Slot {
    type V = SlotView;

    closed spec fn view(&self) -> SlotView {
        SlotView {
            task: self.task@,
            channel_open: self.channel_open,
            cancel_requested: self.cancel_requested,
        }
    }
}

impl View for Supervisor {
    type V = Seq<SlotView>;

    closed spec fn view(&self) -> Seq<SlotView> {
        self.slots@.map_values(|s: Slot| s@)
    }
}

proof fn lemma_index_of(s: Seq<SlotView>, id: Seq<char>, i: int)
    requires
        registry_wf(s),
        0 <= i < s.len(),
        s[i].task.id == id,
    ensures
        index_of(s, id) == i,
{
}

proof fn lemma_update_wf(s: Seq<SlotView>, i: int, v: SlotView)
    requires
        registry_wf(s),
        0 <= i < s.len(),
        slot_wf(v),
        v.task.id == s[i].task.id,
    ensures
        registry_wf(s.update(i, v)),
        forall|id: Seq<char>| index_of(s.update(i, v), id) == index_of(s, id),
{
    let t = s.update(i, v);
    assert forall|id: Seq<char>| index_of(t, id) == index_of(s, id) by {
        if index_of(s, id) >= 0 {
            lemma_index_of(t, id, index_of(s, id));
        } else {
            assert forall|k: int| 0 <= k < t.len() implies (#[trigger] t[k]).task.id != id by {
                if t[k].task.id == id {
                    lemma_index_of(s, id, k);
                }
            }
        }
    }
}

proof fn lemma_push_wf(s: Seq<SlotView>, v: SlotView)
    requires
        registry_wf(s),
        slot_wf(v),
        index_of(s, v.task.id) == -1,
    ensures
        registry_wf(s.push(v)),
        index_of(s.push(v), v.task.id) == s.len(),
{
    let t = s.push(v);
    assert forall|k: int| 0 <= k < s.len() implies (#[trigger] s[k]).task.id != v.task.id by {
        if s[k].task.id == v.task.id {
            lemma_index_of(s, v.task.id, k);
        }
    }
    assert(registry_wf(t)) by {
        assert forall|a: int, b: int|
            0 <= a < t.len() && 0 <= b < t.len() && a != b implies (#[trigger] t[a]).task.id != (
            #[trigger] t[b]).task.id by {
            if a < s.len() && b < s.len() {
                assert(t[a] == s[a] && t[b] == s[b]);
            } else if a < s.len() {
                assert(t[a] == s[a]);
            } else {
                assert(t[b] == s[b]);
            }
        }
    }
    lemma_index_of(t, v.task.id, s.len() as int);
}

/// In a consistent registry a task waits exactly when it has an active
/// prompt, and that prompt is always the latest entry of its history. Every
/// operation keeps the registry consistent, so this holds at every instant.
pub proof fn lemma_waiting_iff_active_prompt(s: Seq<SlotView>, i: int)
    requires
        registry_wf(s),
        0 <= i < s.len(),
    ensures
        (s[i].task.state == TaskState::WaitingForPermission) <==> active_prompt(s[i].task) is Some,
        active_prompt(s[i].task) matches Some(p) ==> p == s[i].task.history.last(),
{
    assert(slot_wf(s[i]));
}

/// A start whose staging failed leaves the record in the error state with
/// the staging message and no open channel: the task never runs.
pub proof fn lemma_staging_failure_never_runs(s: Seq<SlotView>, id: Seq<char>, e: Seq<char>)
    requires
        registry_wf(s),
        index_of(s, id) == -1,
    ensures
        ({
            let t = spec_start(s, id, Err(e));
            &&& index_of(t, id) == s.len()
            &&& t[s.len() as int].task.state == TaskState::Error
            &&& t[s.len() as int].task.error == e
            &&& !t[s.len() as int].channel_open
        }),
{
    let v = SlotView {
        task: fresh_task(id, TaskState::Error, e),
        channel_open: false,
        cancel_requested: false,
    };
    lemma_push_wf(s, v);
}

/// Stopping a task that has reached a terminal state changes nothing: its
/// state, error and reported value stay as they were.
pub proof fn lemma_stop_after_end_is_noop(s: Seq<SlotView>, id: Seq<char>)
    requires
        registry_wf(s),
        index_of(s, id) >= 0,
        s[index_of(s, id)].task.state.spec_is_terminal(),
    ensures
        spec_stop(s, id) == s,
        !stop_signals(s, id),
{
}

/// A stop racing natural completion ends in exactly one terminal state,
/// whichever comes first: stop first gives `Stopped`; completion first gives
/// the completion's state and the later stop is a no-op. In both orders any
/// further reconciliation or stop changes nothing.
pub proof fn lemma_stop_completion_race(s: Seq<SlotView>, id: Seq<char>, o: Outcome, later: Outcome)
    requires
        registry_wf(s),
        is_live(s, id),
    ensures
        ({
            let i = index_of(s, id);
            let stop_first = spec_finish(spec_stop(s, id), id, o);
            let end_first = spec_stop(spec_finish(s, id, o), id);
            &&& index_of(stop_first, id) == i && index_of(end_first, id) == i
            &&& stop_first[i].task.state == TaskState::Stopped
            &&& end_first[i].task.state == final_state(s[i].cancel_requested, o)
            &&& end_first[i].task.state.spec_is_terminal()
            &&& end_first == spec_finish(s, id, o)
            &&& spec_finish(stop_first, id, later) == stop_first
            &&& spec_finish(end_first, id, later) == end_first
            &&& spec_stop(stop_first, id) == stop_first
            &&& spec_stop(end_first, id) == end_first
        }),
{
    let i = index_of(s, id);
    assert(slot_wf(s[i]));
    let s1 = spec_stop(s, id);
    if stop_signals(s, id) {
        lemma_update_wf(s, i, s1[i]);
    }
    assert(is_live(s1, id));
    assert(slot_wf(s1[i]));
    let a = spec_finish(s1, id, o);
    let fa = finished_task(s1[i], o);
    assert(task_wf(fa)) by {
        assert(slot_wf(s1[i]));
    }
    lemma_update_wf(s1, i, a[i]);
    let b0 = spec_finish(s, id, o);
    let fb = finished_task(s[i], o);
    assert(task_wf(fb));
    lemma_update_wf(s, i, b0[i]);
}

/// Reconciling the end of a live, unstopped run records how it ended: a
/// success completes it, an engine error leaves that message verbatim, and
/// the value last reported before the end is the one kept.
pub proof fn lemma_end_records_outcome(s: Seq<SlotView>, id: Seq<char>, v: Seq<char>, o: Outcome)
    requires
        registry_wf(s),
        is_live(s, id),
        !s[index_of(s, id)].cancel_requested,
    ensures
        ({
            let i = index_of(s, id);
            let reported = spec_report(s, id, v);
            let ended = spec_finish(reported, id, o);
            &&& index_of(ended, id) == i
            &&& ended[i].task.return_value == v
            &&& o is Succeeded ==> ended[i].task.state == TaskState::Completed
                && ended[i].task.error.len() == 0
            &&& o matches Outcome::Failed(e) ==> ended[i].task.state == TaskState::Error
                && ended[i].task.error == e@
        }),
{
    let i = index_of(s, id);
    assert(slot_wf(s[i]));
    let reported = spec_report(s, id, v);
    lemma_update_wf(s, i, reported[i]);
    assert(slot_wf(reported[i]));
    assert(task_wf(finished_task(reported[i], o)));
    lemma_update_wf(reported, i, spec_finish(reported, id, o)[i]);
}

/// The sweep keeps no finished record and loses no live one.
pub proof fn lemma_sweep_keeps_live(s: Seq<SlotView>)
    requires
        registry_wf(s),
    ensures
        forall|x: Seq<char>|
            index_of(s, x) >= 0 ==> (#[trigger] index_of(spec_sweep(s), x) >= 0 <==> is_live(s, x)),
        forall|k: int| 0 <= k < spec_sweep(s).len() ==> is_live_slot(#[trigger] spec_sweep(s)[k]),
        forall|k: int| 0 <= k < spec_sweep(s).len() ==> s.contains(#[trigger] spec_sweep(s)[k]),
        forall|k: int| 0 <= k < s.len() && is_live_slot(#[trigger] s[k]) ==> spec_sweep(s).contains(s[k]),
{
    broadcast use vstd::seq_lib::group_filter_ensures;

    let p = |v: SlotView| is_live_slot(v);
    assert forall|k: int| 0 <= k < spec_sweep(s).len() implies s.contains(
        #[trigger] spec_sweep(s)[k],
    ) by {
        s.lemma_filter_contains_rev(p, spec_sweep(s)[k]);
    }
    let t = spec_sweep(s);
    assert forall|x: Seq<char>| index_of(s, x) >= 0 implies (#[trigger] index_of(t, x) >= 0 <==> is_live(
        s,
        x,
    )) by {
        let i = index_of(s, x);
        if is_live(s, x) {
            assert(t.contains(s[i]));
            let k = choose|k: int| 0 <= k < t.len() && t[k] == s[i];
            assert(t[k].task.id == x);
        } else {
            assert forall|k: int| 0 <= k < t.len() implies (#[trigger] t[k]).task.id != x by {
                if t[k].task.id == x {
                    assert(s.contains(t[k]));
                    let j = choose|j: int| 0 <= j < s.len() && s[j] == t[k];
                    lemma_index_of(s, x, j);
                }
            }
        }
    }
}

/// Answering a pending prompt with `Allow` and then ending the worker's wait
/// with that decision puts the task back to running, hands `Allow` to the
/// engine, and leaves `Allow` recorded on the latest prompt of the history.
pub proof fn lemma_allow_resumes(s: Seq<SlotView>, id: Seq<char>)
    requires
        registry_wf(s),
        prompt_pending(s, id),
    ensures
        ({
            let i = index_of(s, id);
            let decided = spec_resolve(s, id, PermissionsResponse::Allow);
            let resumed = spec_resume(decided, id, Some(PermissionsResponse::Allow));
            &&& index_of(resumed, id) == i
            &&& answer_of(Some(PermissionsResponse::Allow)) == PermissionsResponse::Allow
            &&& resumed[i].task.state == TaskState::Running
            &&& resumed[i].task.history.len() == s[i].task.history.len()
            &&& resumed[i].task.history.last().response == Some(PermissionsResponse::Allow)
        }),
{
    let i = index_of(s, id);
    assert(slot_wf(s[i]));
    let decided = spec_resolve(s, id, PermissionsResponse::Allow);
    assert(task_wf(decided[i].task));
    lemma_update_wf(s, i, decided[i]);
    let resumed = spec_resume(decided, id, Some(PermissionsResponse::Allow));
    assert(task_wf(resumed[i].task));
    lemma_update_wf(decided, i, resumed[i]);
}

/// Stopping a task that waits on a prompt closes its channel: no decision
/// can be recorded any more, the wait ends with `Deny` for the engine, and a
/// prompt left unanswered is recorded as denied. A prompt raised after that,
/// while the task still runs, is recorded as denied without a wait.
/// Reconciling the end of a waiting task denies its unanswered prompt in the
/// same way.
pub proof fn lemma_close_denies(
    s: Seq<SlotView>,
    id: Seq<char>,
    r: PermissionsResponse,
    o: Outcome,
    p: PromptView,
)
    requires
        registry_wf(s),
        index_of(s, id) >= 0,
        s[index_of(s, id)].task.state == TaskState::WaitingForPermission,
        s[index_of(s, id)].task.history.last().response is None,
    ensures
        ({
            let i = index_of(s, id);
            let stopped = spec_stop(s, id);
            let released = spec_resume(stopped, id, None);
            let ended = spec_finish(s, id, o);
            &&& !prompt_pending(stopped, id)
            &&& spec_resolve(stopped, id, r) == stopped
            &&& answer_of(None) == PermissionsResponse::Deny
            &&& index_of(released, id) == i
            &&& released[i].task.history.last().response == Some(PermissionsResponse::Deny)
            &&& !prompt_waits(released, id)
            &&& spec_request(released, id, p)[i].task.state == TaskState::Running
            &&& spec_request(released, id, p)[i].task.history == released[i].task.history.push(
                PromptView { response: Some(PermissionsResponse::Deny), ..p },
            )
            &&& ended[i].task.state.spec_is_terminal()
            &&& ended[i].task.history.last().response == Some(PermissionsResponse::Deny)
        }),
{
    let i = index_of(s, id);
    assert(slot_wf(s[i]));
    let stopped = spec_stop(s, id);
    if stop_signals(s, id) {
        lemma_update_wf(s, i, stopped[i]);
    }
    let released = spec_resume(stopped, id, None);
    assert(task_wf(released[i].task));
    lemma_update_wf(stopped, i, released[i]);
}

/// The record of `task_id`, copied out, if one is present.
pub fn get_task_state(supervisor: &Supervisor, task_id: &str) -> (r: Option<Task>)
    requires
        supervisor.wf(),
    ensures
        match r {
            Some(t) => index_of(supervisor@, task_id@) >= 0 && t@ == supervisor@[index_of(
                supervisor@,
                task_id@,
            )].task,
            None => index_of(supervisor@, task_id@) == -1,
        },
{
    let id = task_id.to_owned();
    match supervisor.find(&id) {
        Some(i) => Some(supervisor.snapshot_at(i)),
        None => None,
    }
}

/// Records `response` as the decision on the prompt that `task_id` waits on.
/// Returns whether a decision was owed, in which case the host sends it on
/// the task's channel; otherwise (no prompt pending, task finished or
/// unknown) nothing changes.
pub fn respond_to_permission_prompt(
    supervisor: &mut Supervisor,
    task_id: &str,
    response: PermissionsResponse,
) -> (r: bool)
    requires
        old(supervisor).wf(),
    ensures
        final(supervisor).wf(),
        final(supervisor)@ == spec_resolve(old(supervisor)@, task_id@, response),
        forall|x: Seq<char>| #[trigger] index_of(final(supervisor)@, x) == index_of(old(supervisor)@, x),
        r == prompt_pending(old(supervisor)@, task_id@),
{
    supervisor.resolve(task_id, response)
}

/// Removes every record of a finished task (completed, failed or stopped)
/// and keeps every running or waiting one.
pub fn clear_completed_tasks(supervisor: &mut Supervisor)
    requires
        old(supervisor).wf(),
    ensures
        final(supervisor).wf(),
        final(supervisor)@ == spec_sweep(old(supervisor)@),
{
    supervisor.sweep();
}

impl Supervisor {
    pub open spec fn wf(&self) -> bool {
        registry_wf(self@)
    }

    /// An empty registry.
    pub fn new() -> (r: Supervisor)
        ensures
            r@ == Seq::<SlotView>::empty(),
            r.wf(),
    {
        let r = Supervisor { slots: Vec::new() };
        assert(r@ =~= Seq::<SlotView>::empty());
        r
    }

    fn snapshot_at(&self, i: usize) -> (r: Task)
        requires
            i < self@.len(),
        ensures
            r@ == self@[i as int].task,
    {
        assert(self@[i as int] == self.slots@[i as int]@);
        self.slots[i].task.duplicate()
    }

    fn take_slot(&mut self, i: usize) -> (r: Slot)
        requires
            i < old(self)@.len(),
        ensures
            r@ == old(self)@[i as int],
            final(self)@ == old(self)@.remove(i as int),
    {
        let r = self.slots.remove(i);
        assert(self@ =~= old(self)@.remove(i as int));
        r
    }

    fn put_slot(&mut self, i: usize, slot: Slot)
        requires
            i <= old(self)@.len(),
        ensures
            final(self)@ == old(self)@.insert(i as int, slot@),
    {
        self.slots.insert(i, slot);
        assert(self@ =~= old(self)@.insert(i as int, slot@));
    }

    /// Opens a run of `task_id`, given how staging its source went.
    ///
    /// Refused with `Duplicate` while a record with the id is present. A
    /// staging failure leaves a record in the error state, never running, and
    /// is returned as `Staging`. Otherwise the new running record is returned
    /// for observers.
    pub fn start(&mut self, task_id: &str, staging: Result<(), String>) -> (r: Result<
        Task,
        StartError,
    >)
        requires
            old(self).wf(),
        ensures
            final(self).wf(),
            final(self)@ == spec_start(old(self)@, task_id@, staging_view(staging)),
            index_of(final(self)@, task_id@) == if index_of(old(self)@, task_id@) >= 0 {
                index_of(old(self)@, task_id@)
            } else {
                old(self)@.len() as int
            },
            match r {
                Ok(t) => index_of(old(self)@, task_id@) == -1 && staging is Ok && t@ == fresh_task(
                    task_id@,
                    TaskState::Running,
                    Seq::empty(),
                ),
                Err(StartError::Duplicate) => index_of(old(self)@, task_id@) >= 0,
                Err(StartError::Staging(e)) => index_of(old(self)@, task_id@) == -1
                    && staging_view(staging) == Err::<(), Seq<char>>(e@),
            },
    {
        let id = task_id.to_owned();
        if self.find(&id).is_some() {
            return Err(StartError::Duplicate);
        }
        match staging {
            Ok(()) => {
                let task = Task::new(id, TaskState::Running);
                let snapshot = task.duplicate();
                let slot = Slot { task, channel_open: true, cancel_requested: false };
                proof {
                    lemma_push_wf(self@, slot@);
                }
                self.slots.push(slot);
                assert(self@ =~= spec_start(old(self)@, task_id@, staging_view(staging)));
                Ok(snapshot)
            },
            Err(e) => {
                let mut task = Task::new(id, TaskState::Error);
                task.set_error(e.clone());
                let slot = Slot { task, channel_open: false, cancel_requested: false };
                proof {
                    lemma_push_wf(self@, slot@);
                }
                self.slots.push(slot);
                assert(self@ =~= spec_start(old(self)@, task_id@, staging_view(staging)));
                Err(StartError::Staging(e))
            },
        }
    }

    fn resolve(&mut self, task_id: &str, response: PermissionsResponse) -> (r: bool)
        requires
            old(self).wf(),
        ensures
            final(self).wf(),
            final(self)@ == spec_resolve(old(self)@, task_id@, response),
            forall|x: Seq<char>| #[trigger] index_of(final(self)@, x) == index_of(old(self)@, x),
            r == prompt_pending(old(self)@, task_id@),
    {
        let id = task_id.to_owned();
        match self.find(&id) {
            None => false,
            Some(i) => {
                assert(self@[i as int] == self.slots@[i as int]@);
                if !self.slots[i].channel_open || self.slots[i].task.state()
                    != TaskState::WaitingForPermission {
                    return false;
                }
                if self.slots[i].task.last_response().is_some() {
                    return false;
                }
                let mut slot = self.take_slot(i);
                slot.task.settle_last(response);
                proof {
                    lemma_update_wf(old(self)@, i as int, slot@);
                }
                self.put_slot(i, slot);
                assert(self@ =~= spec_resolve(old(self)@, task_id@, response));
                true
            },
        }
    }

    fn sweep(&mut self)
        requires
            old(self).wf(),
        ensures
            final(self).wf(),
            final(self)@ == spec_sweep(old(self)@),
    {
        let ghost orig = old(self)@;
        let mut rest: Vec<Slot> = Vec::new();
        std::mem::swap(&mut self.slots, &mut rest);
        let mut kept: Vec<Slot> = Vec::new();
        let n = rest.len();
        let mut k: usize = 0;
        assert(rest@.map_values(|s: Slot| s@) =~= orig.subrange(0, n as int));
        while k < n
            invariant
                n == orig.len(),
                k <= n,
                registry_wf(orig),
                rest@.len() == n - k,
                rest@.map_values(|s: Slot| s@) =~= orig.subrange(k as int, n as int),
                kept@.map_values(|s: Slot| s@) == spec_sweep(orig.subrange(0, k as int)),
                forall|a: int| 0 <= a < kept@.len() ==> slot_wf(#[trigger] kept@[a]@),
                forall|a: int, b: int|
                    0 <= a < kept@.len() && 0 <= b < kept@.len() && a != b ==> (#[trigger] kept@[a]@).task.id
                        != (#[trigger] kept@[b]@).task.id,
                forall|a: int, j: int|
                    0 <= a < kept@.len() && k <= j < n ==> (#[trigger] kept@[a]@).task.id != (
                    #[trigger] orig[j]).task.id,
            decreases n - k,
        {
            let ghost r0 = rest@;
            assert(r0.map_values(|s: Slot| s@)[0] == orig[k as int]);
            let slot = rest.remove(0);
            assert(slot@ == orig[k as int]);
            assert(rest@.map_values(|s: Slot| s@) =~= orig.subrange(k as int + 1, n as int)) by {
                assert forall|j: int| 0 <= j < rest@.len() implies rest@[j]@ == orig[k + 1 + j] by {
                    assert(rest@[j] == r0[j + 1]);
                    assert(r0.map_values(|s: Slot| s@)[j + 1] == orig[k + 1 + j]);
                }
            }
            let ghost before = kept@;
            let live = !slot.task.state().is_terminal();
            proof {
                let p = |v: SlotView| is_live_slot(v);
                let pre = orig.subrange(0, k as int + 1);
                assert(pre.drop_last() =~= orig.subrange(0, k as int));
                assert(pre.last() == orig[k as int]);
                reveal(Seq::filter);
                assert(spec_sweep(pre) == if p(pre.last()) {
                    spec_sweep(pre.drop_last()).push(pre.last())
                } else {
                    spec_sweep(pre.drop_last())
                });
            }
            if live {
                kept.push(slot);
                assert(kept@.map_values(|s: Slot| s@) =~= before.map_values(|s: Slot| s@).push(
                    orig[k as int],
                ));
                assert forall|a: int, b: int|
                    0 <= a < kept@.len() && 0 <= b < kept@.len() && a != b implies (
                    #[trigger] kept@[a]@).task.id != (#[trigger] kept@[b]@).task.id by {
                    if a < before.len() && b < before.len() {
                        assert(kept@[a] == before[a] && kept@[b] == before[b]);
                    } else if a < before.len() {
                        assert(kept@[a] == before[a]);
                        assert(kept@[b]@ == orig[k as int]);
                    } else {
                        assert(kept@[b] == before[b]);
                        assert(kept@[a]@ == orig[k as int]);
                    }
                }
                assert forall|a: int, j: int|
                    0 <= a < kept@.len() && k + 1 <= j < n implies (#[trigger] kept@[a]@).task.id != (
                    #[trigger] orig[j]).task.id by {
                    if a < before.len() {
                        assert(kept@[a] == before[a]);
                    } else {
                        assert(kept@[a]@ == orig[k as int]);
                    }
                }
            }
            k = k + 1;
        }
        assert(orig.subrange(0, n as int) =~= orig);
        self.slots = kept;
    }

    /// Signals a stop of `task_id`. Returns whether the host must send the
    /// cancellation signal; on a finished, unknown or already stopped task
    /// nothing changes. The permission channel is closed so that a worker
    /// waiting on a prompt is released with `Deny`.
    pub fn stop(&mut self, task_id: &str) -> (r: bool)
        requires
            old(self).wf(),
        ensures
            final(self).wf(),
            final(self)@ == spec_stop(old(self)@, task_id@),
            forall|x: Seq<char>| #[trigger] index_of(final(self)@, x) == index_of(old(self)@, x),
            r == stop_signals(old(self)@, task_id@),
    {
        let id = task_id.to_owned();
        match self.find(&id) {
            None => false,
            Some(i) => {
                assert(self@[i as int] == self.slots@[i as int]@);
                if self.slots[i].task.state().is_terminal() || self.slots[i].cancel_requested {
                    return false;
                }
                let mut slot = self.take_slot(i);
                slot.channel_open = false;
                slot.cancel_requested = true;
                proof {
                    lemma_update_wf(old(self)@, i as int, slot@);
                }
                self.put_slot(i, slot);
                assert(self@ =~= spec_stop(old(self)@, task_id@));
                true
            },
        }
    }

    /// The engine raised `prompt` in the run of `task_id`. When the task runs
    /// with its channel open, the prompt joins the history, the task waits,
    /// and the snapshot for observers is returned: the worker must then block
    /// for a decision. Otherwise the engine is answered `Deny` at once; a
    /// running task whose channel a stop closed still records the prompt, as
    /// denied.
    pub fn request_permission(&mut self, task_id: &str, prompt: PermissionPrompt) -> (r: Option<
        Task,
    >)
        requires
            old(self).wf(),
            prompt@.response is None,
        ensures
            final(self).wf(),
            final(self)@ == spec_request(old(self)@, task_id@, prompt@),
            forall|x: Seq<char>| #[trigger] index_of(final(self)@, x) == index_of(old(self)@, x),
            r is Some <==> prompt_waits(old(self)@, task_id@),
            r matches Some(t) ==> t@ == final(self)@[index_of(old(self)@, task_id@)].task,
    {
        let id = task_id.to_owned();
        match self.find(&id) {
            None => None,
            Some(i) => {
                assert(self@[i as int] == self.slots@[i as int]@);
                if self.slots[i].task.state() != TaskState::Running {
                    return None;
                }
                if !self.slots[i].channel_open {
                    let mut slot = self.take_slot(i);
                    slot.task.push_prompt(prompt.resolved(PermissionsResponse::Deny));
                    proof {
                        lemma_update_wf(old(self)@, i as int, slot@);
                    }
                    self.put_slot(i, slot);
                    assert(self@ =~= spec_request(old(self)@, task_id@, prompt@));
                    return None;
                }
                let mut slot = self.take_slot(i);
                slot.task.set_state(TaskState::WaitingForPermission);
                slot.task.push_prompt(prompt);
                let snapshot = slot.task.duplicate();
                proof {
                    lemma_update_wf(old(self)@, i as int, slot@);
                }
                self.put_slot(i, slot);
                assert(self@ =~= spec_request(old(self)@, task_id@, prompt@));
                Some(snapshot)
            },
        }
    }

    /// The worker's wait on a prompt of `task_id` ended, with the decision
    /// received or `None` when the channel closed. Returns the answer for the
    /// engine and, when the task was waiting, the snapshot of it running again.
    pub fn resume(&mut self, task_id: &str, received: Option<PermissionsResponse>) -> (r: (
        PermissionsResponse,
        Option<Task>,
    ))
        requires
            old(self).wf(),
        ensures
            final(self).wf(),
            final(self)@ == spec_resume(old(self)@, task_id@, received),
            forall|x: Seq<char>| #[trigger] index_of(final(self)@, x) == index_of(old(self)@, x),
            r.0 == answer_of(received),
            r.1 is Some <==> (index_of(old(self)@, task_id@) >= 0 && old(self)@[index_of(
                old(self)@,
                task_id@,
            )].task.state == TaskState::WaitingForPermission),
            r.1 matches Some(t) ==> t@ == final(self)@[index_of(old(self)@, task_id@)].task,
    {
        let answer = match received {
            Some(r) => r,
            None => PermissionsResponse::Deny,
        };
        let id = task_id.to_owned();
        match self.find(&id) {
            None => (answer, None),
            Some(i) => {
                assert(self@[i as int] == self.slots@[i as int]@);
                if self.slots[i].task.state() != TaskState::WaitingForPermission {
                    return (answer, None);
                }
                let mut slot = self.take_slot(i);
                slot.task.set_state(TaskState::Running);
                slot.task.settle_last(answer);
                let snapshot = slot.task.duplicate();
                proof {
                    lemma_update_wf(old(self)@, i as int, slot@);
                }
                self.put_slot(i, slot);
                assert(self@ =~= spec_resume(old(self)@, task_id@, received));
                (answer, Some(snapshot))
            },
        }
    }

    /// The script of `task_id` reported `value`; stored verbatim on the record
    /// while it is present, the last report winning. The state is untouched
    /// and nothing is notified.
    pub fn report_value(&mut self, task_id: &str, value: String)
        requires
            old(self).wf(),
        ensures
            final(self).wf(),
            final(self)@ == spec_report(old(self)@, task_id@, value@),
            forall|x: Seq<char>| #[trigger] index_of(final(self)@, x) == index_of(old(self)@, x),
    {
        let id = task_id.to_owned();
        match self.find(&id) {
            None => {},
            Some(i) => {
                assert(self@[i as int] == self.slots@[i as int]@);
                let mut slot = self.take_slot(i);
                slot.task.set_return_value(value);
                proof {
                    lemma_update_wf(old(self)@, i as int, slot@);
                }
                self.put_slot(i, slot);
                assert(self@ =~= spec_report(old(self)@, task_id@, value@));
            },
        }
    }

    /// Reconciles the end of the run of `task_id`. The first call for a live
    /// task writes its terminal state and returns the snapshot for observers;
    /// the host then releases the task's channels and staged files. A later
    /// call (the loser of a race between a stop and natural completion)
    /// changes nothing and returns `None`.
    pub fn finish(&mut self, task_id: &str, outcome: Outcome) -> (r: Option<Task>)
        requires
            old(self).wf(),
        ensures
            final(self).wf(),
            final(self)@ == spec_finish(old(self)@, task_id@, outcome),
            forall|x: Seq<char>| #[trigger] index_of(final(self)@, x) == index_of(old(self)@, x),
            r is Some <==> is_live(old(self)@, task_id@),
            r matches Some(t) ==> t@ == final(self)@[index_of(old(self)@, task_id@)].task,
    {
        let id = task_id.to_owned();
        match self.find(&id) {
            None => None,
            Some(i) => {
                assert(self@[i as int] == self.slots@[i as int]@);
                if self.slots[i].task.state().is_terminal() {
                    return None;
                }
                let mut slot = self.take_slot(i);
                if slot.task.state() == TaskState::WaitingForPermission {
                    let answer = match slot.task.last_response() {
                        Some(r) => r,
                        None => PermissionsResponse::Deny,
                    };
                    slot.task.settle_last(answer);
                }
                let state = if slot.cancel_requested {
                    TaskState::Stopped
                } else {
                    match &outcome {
                        Outcome::Succeeded => TaskState::Completed,
                        Outcome::Failed(_) => TaskState::Error,
                        Outcome::Cancelled => TaskState::Stopped,
                    }
                };
                slot.task.set_state(state);
                if state == TaskState::Error {
                    match outcome {
                        Outcome::Failed(e) => slot.task.set_error(e),
                        _ => {},
                    }
                }
                slot.channel_open = false;
                slot.cancel_requested = false;
                let snapshot = slot.task.duplicate();
                proof {
                    lemma_update_wf(old(self)@, i as int, slot@);
                }
                self.put_slot(i, slot);
                assert(self@ =~= spec_finish(old(self)@, task_id@, outcome));
                Some(snapshot)
            },
        }
    }

    /// The position of the record of `id`.
    fn find(&self, id: &String) -> (r: Option<usize>)
        requires
            self.wf(),
        ensures
            match r {
                Some(i) => i == index_of(self@, id@) && i < self@.len(),
                None => index_of(self@, id@) == -1,
            },
    {
        let n = self.slots.len();
        let mut i: usize = 0;
        while i < n
            invariant
                n == self.slots@.len(),
                self@.len() == n,
                registry_wf(self@),
                i <= n,
                forall|j: int| 0 <= j < i ==> (#[trigger] self@[j]).task.id != id@,
            decreases n - i,
        {
            assert(self@[i as int] == self.slots@[i as int]@);
            if self.slots[i].task.id().eq(id) {
                proof {
                    lemma_index_of(self@, id@, i as int);
                }
                return Some(i);
            }
            i = i + 1;
        }
        None
    }
}

} // verus!
