//! The agents of the engine, and the requests that are addressed to them.
//!
//! A request that names an entity which is no agent, or an agent that lacks
//! what the request needs, is passed over in silence.

use crate::acting::{after_end, switch_events, ActionEvent, CurrentAction};
use crate::event::{OnActionEnded, OnPick, OnPicked, RequestAction, RunPicking};
use crate::hierarchy::Entity;
use crate::picking::{Picker, Strategy};
use crate::scoring::Scoreboard;
use vstd::prelude::*;

verus! {

/// One agent: its choices, and, if it has them, its picking strategy and its current action.
pub struct Agent {
    pub entity: Entity,
    pub picker: Picker,
    pub strategy: Option<Strategy>,
    pub current: Option<CurrentAction>,
}

/// The agents, in the order in which they were added.
pub struct Agents {
    pub list: Vec<Agent>,
}

/// Whether `event` asks `agent` to pick, and the agent has a strategy to do it with.
pub open spec fn picks_for(event: RunPicking, agent: Agent) -> bool {
    (event.entity is None || event.entity == Some(agent.entity)) && agent.strategy is Some
}

/// Whether `after` is `before` once `event` was handled: an agent that was
/// asked picked what its strategy picks on `board`; all else is as before.
pub open spec fn picked_by(before: Agent, after: Agent, board: &Scoreboard, event: RunPicking) -> bool {
    &&& after.entity == before.entity
    &&& after.strategy == before.strategy
    &&& after.current == before.current
    &&& after.picker.choices() == before.picker.choices()
    &&& after.picker.spec_idle() == before.picker.spec_idle()
    &&& if picks_for(event, before) {
        before.strategy->0.picks(
            before.picker.choices(),
            board,
            before.picker.spec_idle(),
            after.picker.spec_picked(),
        )
    } else {
        after.picker == before.picker
    }
}

/// The notifications of the picks that `event` asked of `agents`: one for each
/// agent that was asked and has a strategy, in order, with the action picked.
pub open spec fn picked_events(agents: Seq<Agent>, event: RunPicking) -> Seq<OnPicked>
    decreases agents.len(),
{
    if agents.len() == 0 {
        Seq::empty()
    } else {
        let rest = picked_events(agents.drop_last(), event);
        let last = agents.last();
        if picks_for(event, last) {
            rest.push(OnPicked { entity: last.entity, action: last.picker.spec_picked() })
        } else {
            rest
        }
    }
}

/// The agent at position `j` is the same in `after` as in `before`.
pub open spec fn others_kept(before: Seq<Agent>, after: Seq<Agent>, j: int) -> bool {
    after[j] == before[j]
}

/// The position of the first of `agents` with the entity `e`, if there is one.
pub open spec fn first_agent(agents: Seq<Agent>, e: Entity) -> Option<int>
    decreases agents.len(),
{
    if agents.len() == 0 {
        None
    } else {
        match first_agent(agents.drop_last(), e) {
            Some(i) => Some(i),
            None => if agents.last().entity == e {
                Some(agents.len() - 1)
            } else {
                None
            },
        }
    }
}

/// The first agent with the entity `e` stands where `first_agent` says, and
/// no agent before it has that entity.
pub proof fn lemma_first_agent(agents: Seq<Agent>, e: Entity)
    ensures
        match first_agent(agents, e) {
            Some(i) => 0 <= i < agents.len() && agents[i].entity == e && forall|j: int|
                0 <= j < i ==> (#[trigger] agents[j]).entity != e,
            None => forall|j: int| 0 <= j < agents.len() ==> (#[trigger] agents[j]).entity != e,
        },
    decreases agents.len(),
{
    if agents.len() > 0 {
        let front = agents.drop_last();
        lemma_first_agent(front, e);
        match first_agent(front, e) {
            Some(i) => {
                assert(agents[i] == front[i]);
                assert forall|j: int| 0 <= j < i implies (#[trigger] agents[j]).entity != e by {
                    assert(agents[j] == front[j]);
                }
            },
            None => {
                assert forall|j: int| 0 <= j < agents.len() - 1 implies (#[trigger] agents[j]).entity
                    != e by {
                    assert(agents[j] == front[j]);
                }
            },
        }
    }
}

impl Agents {
    /// No agents.
    pub fn new() -> (a: Self)
        ensures
            a.list@.len() == 0,
    {
        Agents { list: Vec::new() }
    }

    /// Adds an agent behind those added before, and returns its position.
    pub fn add(&mut self, agent: Agent) -> (at: usize)
        ensures
            at == old(self).list@.len(),
            final(self).list@ == old(self).list@.push(agent),
    {
        self.list.push(agent);
        self.list.len() - 1
    }

    /// The position of the first agent with the entity `e`, if there is one.
    pub fn find(&self, e: Entity) -> (r: Option<usize>)
        ensures
            match r {
                Some(i) => first_agent(self.list@, e) == Some(i as int),
                None => first_agent(self.list@, e) is None,
            },
    {
        let n = self.list.len();
        let mut i: usize = 0;
        while i < n
            invariant
                i <= n,
                n == self.list@.len(),
                first_agent(self.list@.take(i as int), e) is None,
            decreases n - i,
        {
            assert(self.list@.take(i as int + 1).drop_last() =~= self.list@.take(i as int));
            if self.list[i].entity == e {
                proof {
                    lemma_first_stays(self.list@, e, i as int + 1);
                }
                return Some(i);
            }
            i = i + 1;
        }
        assert(self.list@.take(n as int) =~= self.list@);
        None
    }

    /// Handles the request `event`: every agent that it asks, and that has a
    /// strategy, picks an action from the scores on `board`. Returns the
    /// notifications of the picks, in the order of the agents.
    pub fn run_picking(&mut self, board: &Scoreboard, event: RunPicking) -> (events: Vec<OnPicked>)
        ensures
            final(self).list@.len() == old(self).list@.len(),
            forall|i: int|
                0 <= i < old(self).list@.len() ==> picked_by(
                    old(self).list@[i],
                    #[trigger] final(self).list@[i],
                    board,
                    event,
                ),
            events@ == picked_events(final(self).list@, event),
    {
        let n = self.list.len();
        let mut events: Vec<OnPicked> = Vec::new();
        let mut i: usize = 0;
        while i < n
            invariant
                i <= n,
                n == self.list@.len(),
                n == old(self).list@.len(),
                forall|j: int|
                    0 <= j < i ==> picked_by(
                        old(self).list@[j],
                        #[trigger] self.list@[j],
                        board,
                        event,
                    ),
                forall|j: int| i <= j < n ==> (#[trigger] self.list@[j]) == old(self).list@[j],
                events@ == picked_events(self.list@.take(i as int), event),
            decreases n - i,
        {
            let ghost before = self.list@;
            let entity = self.list[i].entity;
            let asked = match event.entity {
                Some(e) => e == entity,
                None => true,
            };
            let strategy = self.list[i].strategy;
            if asked && strategy.is_some() {
                let strategy = strategy.unwrap();
                let ev = self.list[i].picker.pick(OnPick { entity }, &strategy, board);
                events.push(ev);
            }
            proof {
                assert(self.list@.take(i as int) =~= before.take(i as int));
                assert(self.list@.take(i as int + 1).drop_last() =~= self.list@.take(i as int));
            }
            i = i + 1;
        }
        assert(self.list@.take(n as int) =~= self.list@);
        events
    }

    /// Handles the request `event` for an action: the first agent with the
    /// entity that it names, if it keeps a current action, switches to the
    /// action asked for. Returns the notifications to send, in order.
    pub fn request_action(&mut self, event: RequestAction) -> (events: Vec<ActionEvent>)
        ensures
            final(self).list@.len() == old(self).list@.len(),
            match first_agent(old(self).list@, event.entity) {
                Some(i) => {
                    let before = old(self).list@[i];
                    let after = final(self).list@[i];
                    let next = crate::acting::resolved(event, &before.picker);
                    &&& forall|j: int|
                        0 <= j < old(self).list@.len() && j != i ==> others_kept(
                            old(self).list@,
                            final(self).list@,
                            j,
                        )
                    &&& after.entity == before.entity
                    &&& after.picker == before.picker
                    &&& after.strategy == before.strategy
                    &&& match before.current {
                        Some(c) => after.current == Some(CurrentAction(next)) && events@
                            == switch_events(event, c.0, next),
                        None => after.current is None && events@.len() == 0,
                    }
                },
                None => final(self).list@ == old(self).list@ && events@.len() == 0,
            },
    {
        proof {
            lemma_first_agent(self.list@, event.entity);
        }
        match self.find(event.entity) {
            Some(i) => {
                let next = match event.action {
                    Some(a) => a,
                    None => self.list[i].picker.picked(),
                };
                match self.list[i].current {
                    Some(c) => {
                        let mut c = c;
                        let events = c.switch_to(event, next);
                        self.list[i].current = Some(c);
                        events
                    },
                    None => Vec::new(),
                }
            },
            None => Vec::new(),
        }
    }

    /// Handles the notice `event` that an action ended: the first agent with
    /// the entity that it names is idle again if its current action completed.
    pub fn action_ended(&mut self, event: OnActionEnded)
        ensures
            final(self).list@.len() == old(self).list@.len(),
            match first_agent(old(self).list@, event.entity) {
                Some(i) => {
                    let before = old(self).list@[i];
                    let after = final(self).list@[i];
                    &&& forall|j: int|
                        0 <= j < old(self).list@.len() && j != i ==> others_kept(
                            old(self).list@,
                            final(self).list@,
                            j,
                        )
                    &&& after.entity == before.entity
                    &&& after.picker == before.picker
                    &&& after.strategy == before.strategy
                    &&& match before.current {
                        Some(c) => after.current == Some(
                            CurrentAction(after_end(c.0, before.picker.spec_idle(), event)),
                        ),
                        None => after.current is None,
                    }
                },
                None => final(self).list@ == old(self).list@,
            },
    {
        proof {
            lemma_first_agent(self.list@, event.entity);
        }
        match self.find(event.entity) {
            Some(i) => {
                let idle = self.list[i].picker.idle();
                match self.list[i].current {
                    Some(c) => {
                        let mut c = c;
                        c.finish(idle, event);
                        self.list[i].current = Some(c);
                    },
                    None => {},
                }
            },
            None => {},
        }
    }
}

/// An agent found among the first `n` agents is the first among all.
proof fn lemma_first_stays(agents: Seq<Agent>, e: Entity, n: int)
    requires
        0 <= n <= agents.len(),
        first_agent(agents.take(n), e) is Some,
    ensures
        first_agent(agents, e) == first_agent(agents.take(n), e),
    decreases agents.len() - n,
{
    if n < agents.len() {
        assert(agents.take(n + 1).drop_last() =~= agents.take(n));
        lemma_first_stays(agents, e, n + 1);
    } else {
        assert(agents.take(n) =~= agents);
    }
}

} // verus!
