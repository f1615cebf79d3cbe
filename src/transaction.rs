use vstd::prelude::*;
use crate::key::{AbsolutePackageKey, KeyView};
use crate::status::PackageStatus;

verus! {

/// What a transaction does to a package.
#[derive(Clone, Copy, Debug, PartialEq, Eq, Structural)]
pub enum PackageAction {
    Install,
    Uninstall,
}

/// Why a step of a transaction failed.
#[derive(Clone, Debug, PartialEq, Eq)]
pub enum StepError {
    DownloadIo,
    DownloadNetwork,
    DownloadCancelled,
    PackageNotInCache,
    /// A native installer tool failed; its standard error.
    NativeToolFailed(String),
}

/// One planned step: a package, the action, and whether there is nothing
/// to do (the package is already as wanted).
pub struct TransactionAction {
    pub key: AbsolutePackageKey,
    pub action: PackageAction,
    pub no_op: bool,
}

/// What the runner of a transaction must do next for the step at `index`.
#[derive(Clone, Copy, Debug, PartialEq, Eq, Structural)]
pub enum TransactionCommand {
    /// Nothing to do: report success with the current status.
    Skip(usize),
    /// Download (for an install), then invoke the backend.
    Perform(usize, PackageAction),
}

/// How a step ended, as the runner reports it.
pub enum StepOutcome {
    Succeeded(PackageStatus),
    Failed(StepError),
}

/// What the transaction emits for a reported step.
pub enum TransactionEvent {
    Completed(usize, PackageStatus),
    Failed(usize, StepError),
}

pub struct TxView {
    pub actions: Seq<(KeyView, PackageAction, bool)>,
    pub position: nat,
    pub stopped: bool,
}

/// A transaction: steps run strictly in order, and the first failure, or a
/// cancellation, stops it for good.
pub struct Transaction {
    actions: Vec<TransactionAction>,
    position: usize,
    stopped: bool,
}

impl View for Transaction {
    type V = TxView;

    closed spec fn view(&self) -> TxView {
        TxView {
            actions: self.actions@.map_values(|a: TransactionAction| (a.key@, a.action, a.no_op)),
            position: self.position as nat,
            stopped: self.stopped,
        }
    }
}

/// A step waits to be run.
pub open spec fn is_pending(t: TxView) -> bool {
    !t.stopped && t.position < t.actions.len()
}

/// The command for the next step, if any.
pub open spec fn next_command_spec(t: TxView) -> Option<TransactionCommand> {
    if !is_pending(t) {
        None
    } else if t.actions[t.position as int].2 {
        Some(TransactionCommand::Skip(t.position as usize))
    } else {
        Some(TransactionCommand::Perform(t.position as usize, t.actions[t.position as int].1))
    }
}

/// The state after the pending step ends with `o`.
pub open spec fn after_outcome(t: TxView, o: StepOutcome) -> TxView {
    match o {
        StepOutcome::Succeeded(_) => TxView { position: t.position + 1, ..t },
        StepOutcome::Failed(_) => TxView { stopped: true, ..t },
    }
}

/// The event emitted when the pending step ends with `o`.
pub open spec fn event_of(t: TxView, o: StepOutcome) -> TransactionEvent {
    match o {
        StepOutcome::Succeeded(s) => TransactionEvent::Completed(t.position as usize, s),
        StepOutcome::Failed(e) => TransactionEvent::Failed(t.position as usize, e),
    }
}

/// The events of a run in which the steps end with `outcomes`, in order,
/// for as long as the transaction goes on.
pub open spec fn run_events(t: TxView, outcomes: Seq<StepOutcome>) -> Seq<TransactionEvent>
    decreases outcomes.len(),
{
    if outcomes.len() == 0 || !is_pending(t) {
        Seq::empty()
    } else {
        seq![event_of(t, outcomes[0])] + run_events(after_outcome(t, outcomes[0]), outcomes.drop_first())
    }
}

impl Transaction {
    /// A transaction over the planned steps, in order.
    pub fn new(actions: Vec<TransactionAction>) -> (r: Transaction)
        ensures
            r@.actions == actions@.map_values(|a: TransactionAction| (a.key@, a.action, a.no_op)),
            r@.position == 0,
            !r@.stopped,
    {
        Transaction { actions, position: 0, stopped: false }
    }

    /// The number of planned steps.
    pub fn len(&self) -> (r: usize)
        ensures
            r == self@.actions.len(),
    {
        self.actions.len()
    }

    /// The package of step `index`.
    pub fn action_key(&self, index: usize) -> (r: AbsolutePackageKey)
        requires
            index < self@.actions.len(),
        ensures
            r@ == self@.actions[index as int].0,
    {
        self.actions[index].key.duplicate()
    }

    /// Whether the transaction was stopped by a failure or a cancellation.
    pub fn is_stopped(&self) -> (r: bool)
        ensures
            r == self@.stopped,
    {
        self.stopped
    }

    /// What to do next; `None` once every step ran or the transaction
    /// stopped.
    pub fn next_command(&self) -> (r: Option<TransactionCommand>)
        ensures
            r == next_command_spec(self@),
    {
        if self.stopped || self.position >= self.actions.len() {
            None
        } else if self.actions[self.position].no_op {
            Some(TransactionCommand::Skip(self.position))
        } else {
            Some(TransactionCommand::Perform(self.position, self.actions[self.position].action))
        }
    }

    /// Records how the pending step ended and returns the event to emit.
    pub fn report(&mut self, outcome: StepOutcome) -> (r: TransactionEvent)
        requires
            is_pending(old(self)@),
        ensures
            final(self)@ == after_outcome(old(self)@, outcome),
            r == event_of(old(self)@, outcome),
    {
        let index = self.position;
        let n = self.actions.len();
        assert(index < n);
        match outcome {
            StepOutcome::Succeeded(status) => {
                self.position = self.position + 1;
                TransactionEvent::Completed(index, status)
            },
            StepOutcome::Failed(e) => {
                self.stopped = true;
                TransactionEvent::Failed(index, e)
            },
        }
    }

    /// Cancels the transaction: no further step starts.
    pub fn cancel(&mut self)
        ensures
            final(self)@ == (TxView { stopped: true, ..old(self)@ }),
    {
        self.stopped = true;
    }
}

/// Fail-stop: when the steps before step `p + m` succeed and that step
/// fails, the run emits exactly one event per step up to it, the last one
/// its failure, and nothing for the steps after it.
pub proof fn lemma_fail_stop(t: TxView, outcomes: Seq<StepOutcome>, m: nat)
    requires
        !t.stopped,
        t.position + m < t.actions.len(),
        m < outcomes.len(),
        forall|i: int| 0 <= i < m ==> #[trigger] outcomes[i] is Succeeded,
        outcomes[m as int] is Failed,
    ensures
        run_events(t, outcomes).len() == m + 1,
        run_events(t, outcomes)[m as int] == TransactionEvent::Failed(
            (t.position + m) as usize,
            outcomes[m as int]->Failed_0,
        ),
        forall|i: int| 0 <= i < m ==> #[trigger] run_events(t, outcomes)[i] == TransactionEvent::Completed(
            (t.position + i) as usize,
            outcomes[i]->Succeeded_0,
        ),
    decreases m,
{
    let t2 = after_outcome(t, outcomes[0]);
    let rest = outcomes.drop_first();
    if m == 0 {
        assert(!is_pending(t2));
        assert(run_events(t2, rest) =~= Seq::empty());
    } else {
        assert(outcomes[0] is Succeeded);
        assert forall|i: int| 0 <= i < m - 1 implies #[trigger] rest[i] is Succeeded by {
            assert(rest[i] == outcomes[i + 1]);
        }
        lemma_fail_stop(t2, rest, (m - 1) as nat);
        let ev = run_events(t, outcomes);
        assert(ev == seq![event_of(t, outcomes[0])] + run_events(t2, rest));
        assert forall|i: int| 0 <= i < m implies #[trigger] run_events(t, outcomes)[i] == TransactionEvent::Completed(
            (t.position + i) as usize,
            outcomes[i]->Succeeded_0,
        ) by {
            if i > 0 {
                assert(ev[i] == run_events(t2, rest)[i - 1]);
                assert(rest[i - 1] == outcomes[i]);
            }
        }
    }
}

} // verus!
