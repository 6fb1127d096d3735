//! The action lifecycle of an agent: one action is current at a time, and
//! the action that gives way is told so before the next one starts.

use crate::event::{ActionEndReason, ActionId, OnActionEnded, OnActionInitiated, RequestAction};
use crate::hierarchy::Entity;
use crate::picking::Picker;
use vstd::prelude::*;

verus! {

/// The action that an agent is carrying out: its idle action, or the action
/// initiated last that has not yet ended.
#[derive(Clone, Copy, Debug, PartialEq, Eq, Structural)]
pub struct CurrentAction(pub ActionId);

/// A notification that the lifecycle sends.
#[derive(Clone, Copy, Debug, PartialEq, Eq, Structural)]
pub enum ActionEvent {
    /// An action ended.
    Ended(OnActionEnded),
    /// An action started.
    Initiated(OnActionInitiated),
}

/// The action that `request` asks for: the one it names, or else the one that `picker` picked.
pub open spec fn resolved(request: RequestAction, picker: &Picker) -> ActionId {
    match request.action {
        Some(a) => a,
        None => picker.spec_picked(),
    }
}

/// The notifications that answer a request for `next` while `current` is
/// the current action: none if they are the same; otherwise the
/// cancellation of `current`, then the initiation of `next`.
pub open spec fn switch_events(request: RequestAction, current: ActionId, next: ActionId) -> Seq<
    ActionEvent,
> {
    if next == current {
        Seq::empty()
    } else {
        seq![
            ActionEvent::Ended(
                OnActionEnded {
                    entity: request.entity,
                    action: current,
                    reason: ActionEndReason::Cancelled,
                },
            ),
            ActionEvent::Initiated(OnActionInitiated { entity: request.entity, action: next }),
        ]
    }
}

/// The current action after the notice `ended` has arrived: the idle action
/// if the current action completed, and the current action otherwise.
pub open spec fn after_end(current: ActionId, idle: ActionId, ended: OnActionEnded) -> ActionId {
    if ended.reason == ActionEndReason::Completed && ended.action == current {
        idle
    } else {
        current
    }
}

impl CurrentAction {
    /// The state of an agent that is idle.
    pub fn new(idle: ActionId) -> (c: Self)
        ensures
            c.0 == idle,
    {
        CurrentAction(idle)
    }

    /// The current action.
    pub fn get(&self) -> (a: ActionId)
        ensures
            a == self.0,
    {
        self.0
    }

    /// Handles a request for an action. If the action asked for is not the
    /// current one, it becomes the current one, and the notifications to send
    /// are returned in the order in which they are to be sent. Otherwise
    /// nothing changes and nothing is sent.
    pub fn request(&mut self, picker: &Picker, request: RequestAction) -> (events: Vec<ActionEvent>)
        ensures
            final(self).0 == resolved(request, picker),
            events@ == switch_events(request, old(self).0, resolved(request, picker)),
    {
        let next = match request.action {
            Some(a) => a,
            None => picker.picked(),
        };
        self.switch_to(request, next)
    }

    /// Makes `next` the current action in answer to `request`, and returns
    /// the notifications to send, in order: none if `next` is current already.
    pub fn switch_to(&mut self, request: RequestAction, next: ActionId) -> (events: Vec<ActionEvent>)
        ensures
            final(self).0 == next,
            events@ == switch_events(request, old(self).0, next),
    {
        let mut events: Vec<ActionEvent> = Vec::new();
        if next != self.0 {
            events.push(ActionEvent::Ended(OnActionEnded::cancelled(request.entity, self.0)));
            self.0 = next;
            events.push(
                ActionEvent::Initiated(OnActionInitiated { entity: request.entity, action: next }),
            );
        }
        assert(events@ =~= switch_events(request, old(self).0, next));
        events
    }

    /// Handles the notice that an action ended: when the current action
    /// completed, the agent is idle again. A cancellation, and the end of any
    /// other action, change nothing.
    pub fn ended(&mut self, picker: &Picker, ended: OnActionEnded)
        ensures
            final(self).0 == after_end(old(self).0, picker.spec_idle(), ended),
    {
        self.finish(picker.idle(), ended)
    }

    /// Handles the notice that an action ended, for an agent whose idle action is `idle`.
    pub fn finish(&mut self, idle: ActionId, ended: OnActionEnded)
        ensures
            final(self).0 == after_end(old(self).0, idle, ended),
    {
        match ended.reason {
            ActionEndReason::Completed => {
                if ended.action == self.0 {
                    self.0 = idle;
                }
            },
            ActionEndReason::Cancelled => {},
        }
    }
}

/// A request never starts an action without ending the one that was current:
/// if anything is sent, the cancellation of the old current action comes
/// first and the initiation of the new one second, and the new one differs
/// from the old.
pub proof fn lemma_cancel_before_initiate(request: RequestAction, current: ActionId, next: ActionId)
    ensures
        ({
            let events = switch_events(request, current, next);
            ||| events.len() == 0 && next == current
            ||| {
                &&& events.len() == 2
                &&& next != current
                &&& events[0] == ActionEvent::Ended(OnActionEnded { entity: request.entity, action: current, reason: ActionEndReason::Cancelled })
                &&& events[1] == ActionEvent::Initiated(OnActionInitiated { entity: request.entity, action: next })
            }
        }),
{
}

/// The lifecycle of an agent `entity` from idle: a request for `first`
/// initiates it; a request for `second` then cancels `first` and initiates
/// `second`, in this order; and the completion of `second` leaves the agent idle.
pub proof fn lemma_lifecycle(entity: Entity, idle: ActionId, first: ActionId, second: ActionId)
    requires
        first != idle,
        second != first,
    ensures
        ({
            let one = RequestAction { entity, action: Some(first) };
            let two = RequestAction { entity, action: Some(second) };
            let done = OnActionEnded { entity, action: second, reason: ActionEndReason::Completed };
            &&& switch_events(one, idle, first).last() == ActionEvent::Initiated(
                OnActionInitiated { entity, action: first },
            )
            &&& switch_events(two, first, second) == seq![
                ActionEvent::Ended(
                    OnActionEnded { entity, action: first, reason: ActionEndReason::Cancelled },
                ),
                ActionEvent::Initiated(OnActionInitiated { entity, action: second }),
            ]
            &&& after_end(second, idle, done) == idle
        }),
{
}

} // verus!
