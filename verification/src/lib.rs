//! Utility-AI decision engine: scores candidate actions over a score tree,
//! picks one action per agent, and drives the lifecycle of the action picked.
//!
//! - [`hierarchy`]: the forest of entities that everything else reads.
//! - [`traversal`]: post-order traversal of a subtree, without recursion.
//! - [`score`] and [`scoring`]: scores, the combinators that aggregate them,
//!   and the scoring pass that computes every score after those below it.
//! - [`picking`]: the strategies that choose an action from finished scores.
//! - [`acting`]: the state machine of the current action of an agent.
//! - [`agent`]: requests addressed to one agent or to all.
//! - [`ancestor`]: finding the nearest ancestor with a capability, cached.
//! - [`event`]: the notifications that the phases take and send.
//!
//! Every score is a fixed-point number counted in millionths
//! (see [`score::Score`]), so all arithmetic here is exact integer arithmetic.

pub mod acting;
pub mod agent;
pub mod ancestor;
pub mod event;
pub mod hierarchy;
pub mod picking;
pub mod score;
pub mod scoring;
pub mod traversal;
