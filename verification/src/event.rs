//! The notifications of the engine.
//!
//! Scoring: [`RunScoring`] asks for a scoring pass, which sends [`OnScore`]
//! to each entity in turn. Picking: [`RunPicking`] asks an agent to pick,
//! which sends [`OnPick`] and answers with [`OnPicked`]. Acting:
//! [`RequestAction`] asks for an action to start, answered by
//! [`OnActionEnded`] for the action that gives way and [`OnActionInitiated`]
//! for the one that starts.

use crate::hierarchy::Entity;
use vstd::prelude::*;

verus! {

/// An opaque handle naming one kind of action.
#[derive(Clone, Copy, Debug, PartialEq, Eq, Structural, Hash)]
pub struct ActionId {
    pub id: usize,
}

/// Asks for the scores of one entity's subtree, or of all score trees, to be computed.
#[derive(Clone, Copy, Debug, PartialEq, Eq, Structural)]
pub struct RunScoring {
    /// The entity to score, or `None` to score all.
    pub entity: Option<Entity>,
}

impl RunScoring {
    /// The request to score every score tree.
    pub fn all() -> (ev: Self)
        ensures
            ev.entity is None,
    {
        RunScoring { entity: None }
    }

    /// The request to score the subtree of `entity`.
    pub fn entity(entity: Entity) -> (ev: Self)
        ensures
            ev.entity == Some(entity),
    {
        RunScoring { entity: Some(entity) }
    }
}

impl Default for RunScoring {
    fn default() -> (ev: Self)
        ensures
            ev.entity is None,
    {
        RunScoring { entity: None }
    }
}

/// Tells one entity to compute its score.
#[derive(Clone, Copy, Debug, PartialEq, Eq, Structural)]
pub struct OnScore {
    /// The entity being scored.
    pub entity: Entity,
}

/// Asks one agent, or all agents, to pick an action.
#[derive(Clone, Copy, Debug, PartialEq, Eq, Structural)]
pub struct RunPicking {
    /// The agent to pick for, or `None` to pick for all.
    pub entity: Option<Entity>,
}

impl RunPicking {
    /// The request that every agent picks.
    pub fn all() -> (ev: Self)
        ensures
            ev.entity is None,
    {
        RunPicking { entity: None }
    }

    /// The request that the agent `entity` picks.
    pub fn entity(entity: Entity) -> (ev: Self)
        ensures
            ev.entity == Some(entity),
    {
        RunPicking { entity: Some(entity) }
    }
}

impl Default for RunPicking {
    fn default() -> (ev: Self)
        ensures
            ev.entity is None,
    {
        RunPicking { entity: None }
    }
}

/// Tells one agent to pick an action.
#[derive(Clone, Copy, Debug, PartialEq, Eq, Structural)]
pub struct OnPick {
    /// The agent that picks.
    pub entity: Entity,
}

/// Says which action an agent picked.
#[derive(Clone, Copy, Debug, PartialEq, Eq, Structural)]
pub struct OnPicked {
    /// The agent that picked.
    pub entity: Entity,
    /// The action that it picked.
    pub action: ActionId,
}

/// Asks for an action to start for an agent: a given one, or the one that its picker picked.
#[derive(Clone, Copy, Debug, PartialEq, Eq, Structural)]
pub struct RequestAction {
    /// The agent.
    pub entity: Entity,
    /// The action asked for, or `None` for the picked action.
    pub action: Option<ActionId>,
}

impl RequestAction {
    /// The request to start the action that the picker of `entity` picked.
    pub fn picked(entity: Entity) -> (ev: Self)
        ensures
            ev.entity == entity,
            ev.action is None,
    {
        RequestAction { entity, action: None }
    }

    /// The request to start `action` for `entity`.
    pub fn specific(entity: Entity, action: ActionId) -> (ev: Self)
        ensures
            ev.entity == entity,
            ev.action == Some(action),
    {
        RequestAction { entity, action: Some(action) }
    }
}

/// Says that an action started for an agent.
#[derive(Clone, Copy, Debug, PartialEq, Eq, Structural)]
pub struct OnActionInitiated {
    /// The agent.
    pub entity: Entity,
    /// The action that started.
    pub action: ActionId,
}

/// Why an action ended.
#[derive(Clone, Copy, Debug, PartialEq, Eq, Structural)]
pub enum ActionEndReason {
    /// The action ran to its end.
    Completed,
    /// Another action was requested before this one had ended.
    Cancelled,
}

/// Says that an action of an agent ended, and why.
#[derive(Clone, Copy, Debug, PartialEq, Eq, Structural)]
pub struct OnActionEnded {
    /// The agent.
    pub entity: Entity,
    /// The action that ended.
    pub action: ActionId,
    /// Why it ended.
    pub reason: ActionEndReason,
}

impl OnActionEnded {
    /// The notice that `action` of `entity` ran to its end.
    pub fn completed(entity: Entity, action: ActionId) -> (ev: Self)
        ensures
            ev == (OnActionEnded { entity, action, reason: ActionEndReason::Completed }),
    {
        OnActionEnded { entity, action, reason: ActionEndReason::Completed }
    }

    /// The notice that `action` of `entity` was cancelled.
    pub fn cancelled(entity: Entity, action: ActionId) -> (ev: Self)
        ensures
            ev == (OnActionEnded { entity, action, reason: ActionEndReason::Cancelled }),
    {
        OnActionEnded { entity, action, reason: ActionEndReason::Cancelled }
    }
}

} // verus!
