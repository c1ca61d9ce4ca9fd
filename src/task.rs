//! The observable record of one script run.

use vstd::prelude::*;
use crate::permission::{PermissionPrompt, PermissionsResponse, PromptView};

verus! {

/// Where a task stands in its run.
#[derive(Debug, Clone, Copy, PartialEq, Eq, Structural)]
pub enum TaskState {
    Running,
    WaitingForPermission,
    Completed,
    Error,
    Stopped,
}

impl TaskState {
    /// Completed, Error and Stopped are terminal: no transition leaves them.
    pub open spec fn spec_is_terminal(self) -> bool {
        match self {
            TaskState::Completed | TaskState::Error | TaskState::Stopped => true,
            _ => false,
        }
    }

    pub fn is_terminal(&self) -> (r: bool)
        ensures
            r == self.spec_is_terminal(),
    {
        match self {
            TaskState::Completed | TaskState::Error | TaskState::Stopped => true,
            _ => false,
        }
    }

    /// The name under which observers know the state.
    pub fn as_str(&self) -> (r: &'static str)
        ensures
            r@ == state_name(*self),
    {
        match self {
            TaskState::Running => "running",
            TaskState::WaitingForPermission => "waiting_for_permission",
            TaskState::Completed => "completed",
            TaskState::Error => "error",
            TaskState::Stopped => "stopped",
        }
    }
}

pub open spec fn state_name(s: TaskState) -> Seq<char> {
    match s {
        TaskState::Running => "running"@,
        TaskState::WaitingForPermission => "waiting_for_permission"@,
        TaskState::Completed => "completed"@,
        TaskState::Error => "error"@,
        TaskState::Stopped => "stopped"@,
    }
}

/// What a task record holds, as plain values.
pub struct TaskView {
    pub id: Seq<char>,
    pub state: TaskState,
    pub error: Seq<char>,
    pub return_value: Seq<char>,
    pub history: Seq<PromptView>,
}

/// The prompt awaiting a decision: the latest one, while the task waits.
pub open spec fn active_prompt(t: TaskView) -> Option<PromptView> {
    if t.state == TaskState::WaitingForPermission && t.history.len() > 0 {
        Some(t.history.last())
    } else {
        None
    }
}

/// A record is well formed when a waiting task has a prompt to wait on, every
/// prompt but the one being waited on carries its resolution, and only a
/// task in the error state has an error message.
pub open spec fn task_wf(t: TaskView) -> bool {
    &&& t.state == TaskState::WaitingForPermission ==> t.history.len() > 0
    &&& forall|i: int|
        0 <= i < t.history.len() && !(t.state == TaskState::WaitingForPermission && i == t.history.len()
            - 1) ==> (#[trigger] t.history[i]).response is Some
    &&& t.state != TaskState::Error ==> t.error.len() == 0
}

/// `h` with `answer` recorded as the resolution of its latest prompt.
pub open spec fn settle(h: Seq<PromptView>, answer: PermissionsResponse) -> Seq<PromptView> {
    h.update(h.len() - 1, PromptView { response: Some(answer), ..h.last() })
}

/// The record of one run.
#[derive(Debug)]
pub struct Task {
    id: String,
    state: TaskState,
    error: String,
    return_value: String,
    permission_history: Vec<PermissionPrompt>,
}

impl View for Task {
    type V = TaskView;

    closed spec fn view(&self) -> TaskView {
        TaskView {
            id: self.id@,
            state: self.state,
            error: self.error@,
            return_value: self.return_value@,
            history: self.permission_history@.map_values(|p: PermissionPrompt| p@),
        }
    }
}

impl Task {
    /// A fresh record: no error, no value, no prompts yet.
    pub fn new(id: String, initial_state: TaskState) -> (r: Task)
        requires
            initial_state != TaskState::WaitingForPermission,
        ensures
            r@ == (TaskView {
                id: id@,
                state: initial_state,
                error: Seq::empty(),
                return_value: Seq::empty(),
                history: Seq::empty(),
            }),
            task_wf(r@),
    {
        let r = Task {
            id,
            state: initial_state,
            error: String::new(),
            return_value: String::new(),
            permission_history: Vec::new(),
        };
        assert(r@.history =~= Seq::empty());
        r
    }

    pub fn id(&self) -> (r: &String)
        ensures
            r@ == self@.id,
    {
        &self.id
    }

    pub fn state(&self) -> (r: TaskState)
        ensures
            r == self@.state,
    {
        self.state
    }

    /// The last engine error; empty unless the state is `Error`.
    pub fn error(&self) -> (r: &String)
        ensures
            r@ == self@.error,
    {
        &self.error
    }

    /// The last value the script reported; empty until it reports one.
    pub fn return_value(&self) -> (r: &String)
        ensures
            r@ == self@.return_value,
    {
        &self.return_value
    }

    /// Every prompt raised during the run, in order.
    pub fn permission_history(&self) -> (r: &Vec<PermissionPrompt>)
        ensures
            r@.map_values(|p: PermissionPrompt| p@) == self@.history,
    {
        &self.permission_history
    }

    /// The prompt being waited on, present exactly while the task waits.
    pub fn permission_prompt(&self) -> (r: Option<PermissionPrompt>)
        ensures
            match r {
                Some(p) => active_prompt(self@) == Some(p@),
                None => active_prompt(self@) is None,
            },
    {
        let n = self.permission_history.len();
        if self.state == TaskState::WaitingForPermission && n > 0 {
            Some(self.permission_history[n - 1].duplicate())
        } else {
            None
        }
    }

    /// A copy with the same view.
    pub fn duplicate(&self) -> (r: Task)
        ensures
            r@ == self@,
    {
        let mut history: Vec<PermissionPrompt> = Vec::new();
        let n = self.permission_history.len();
        let mut i: usize = 0;
        while i < n
            invariant
                n == self.permission_history@.len(),
                i <= n,
                history@.len() == i,
                forall|j: int| 0 <= j < i ==> (#[trigger] history@[j])@ == self.permission_history@[j]@,
            decreases n - i,
        {
            history.push(self.permission_history[i].duplicate());
            i = i + 1;
        }
        let r = Task {
            id: self.id.clone(),
            state: self.state,
            error: self.error.clone(),
            return_value: self.return_value.clone(),
            permission_history: history,
        };
        assert(r@.history =~= self@.history);
        r
    }

    pub(crate) fn set_state(&mut self, state: TaskState)
        ensures
            final(self)@ == (TaskView { state, ..old(self)@ }),
    {
        self.state = state;
    }

    pub(crate) fn set_error(&mut self, error: String)
        ensures
            final(self)@ == (TaskView { error: error@, ..old(self)@ }),
    {
        self.error = error;
    }

    pub(crate) fn set_return_value(&mut self, value: String)
        ensures
            final(self)@ == (TaskView { return_value: value@, ..old(self)@ }),
    {
        self.return_value = value;
    }

    pub(crate) fn push_prompt(&mut self, prompt: PermissionPrompt)
        ensures
            final(self)@ == (TaskView { history: old(self)@.history.push(prompt@), ..old(self)@ }),
    {
        self.permission_history.push(prompt);
        assert(self@.history =~= old(self)@.history.push(prompt@));
    }

    /// The resolution of the latest prompt, if it has one.
    pub(crate) fn last_response(&self) -> (r: Option<PermissionsResponse>)
        requires
            self@.history.len() > 0,
        ensures
            r == self@.history.last().response,
    {
        let n = self.permission_history.len();
        self.permission_history[n - 1].response()
    }

    pub(crate) fn settle_last(&mut self, answer: PermissionsResponse)
        requires
            old(self)@.history.len() > 0,
        ensures
            final(self)@ == (TaskView { history: settle(old(self)@.history, answer), ..old(self)@ }),
    {
        let last = self.permission_history.pop();
        match last {
            Some(p) => {
                self.permission_history.push(p.resolved(answer));
            },
            None => {},
        }
        assert(self@.history =~= settle(old(self)@.history, answer));
    }
}

} // verus!
