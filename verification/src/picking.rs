//! Choosing one action for an agent from the scores of its scorers.

use crate::event::{ActionId, OnPick, OnPicked};
use crate::hierarchy::Entity;
use crate::score::Score;
use crate::scoring::Scoreboard;
use vstd::prelude::*;

verus! {

/// The choices of one agent: an idle action, and an ordered list of scorer
/// entities with the action that each stands for. No scorer stands twice in
/// the list, and the picked action is the idle action or one of the list.
pub struct Picker {
    idle: ActionId,
    choices: Vec<(Entity, ActionId)>,
    picked: ActionId,
}

/// Whether the scorer `e` stands in `choices`.
pub open spec fn has_scorer(choices: Seq<(Entity, ActionId)>, e: Entity) -> bool {
    exists|i: int| 0 <= i < choices.len() && (#[trigger] choices[i]).0 == e
}

/// Whether `a` is the action of one of `choices`.
pub open spec fn has_action(choices: Seq<(Entity, ActionId)>, a: ActionId) -> bool {
    exists|i: int| 0 <= i < choices.len() && (#[trigger] choices[i]).1 == a
}

/// Whether the scorer of `choice` has a score that reaches `threshold`.
pub open spec fn qualifies(choice: (Entity, ActionId), board: &Scoreboard, threshold: Score) -> bool {
    board.score_of(choice.0) matches Some(s) && s@ >= threshold@
}

/// Whether `a` is what the first-to-score strategy picks: the action of
/// the first choice that qualifies, or `idle` if none does.
pub open spec fn is_first_to_score(
    choices: Seq<(Entity, ActionId)>,
    board: &Scoreboard,
    threshold: Score,
    idle: ActionId,
    a: ActionId,
) -> bool {
    ||| exists|i: int|
        {
            &&& 0 <= i < choices.len()
            &&& qualifies(#[trigger] choices[i], board, threshold)
            &&& forall|j: int| 0 <= j < i ==> !qualifies(#[trigger] choices[j], board, threshold)
            &&& a == choices[i].1
        }
    ||| {
        &&& forall|j: int| 0 <= j < choices.len() ==> !qualifies(#[trigger] choices[j], board, threshold)
        &&& a == idle
    }
}

/// Whether the choice at `i` has a score that no earlier choice reaches and no later one exceeds.
pub open spec fn leads(choices: Seq<(Entity, ActionId)>, board: &Scoreboard, i: int) -> bool {
    &&& 0 <= i < choices.len()
    &&& board.score_of(choices[i].0) matches Some(best) && forall|j: int|
        0 <= j < choices.len() ==> match board.score_of((#[trigger] choices[j]).0) {
            Some(s) => s@ < best@ || (s@ == best@ && j >= i),
            None => true,
        }
}

/// Whether `a` is what the highest strategy picks: the action of the first
/// choice with the highest score, however low, or `idle` if no scorer has a score.
pub open spec fn is_highest(
    choices: Seq<(Entity, ActionId)>,
    board: &Scoreboard,
    idle: ActionId,
    a: ActionId,
) -> bool {
    ||| exists|i: int| #[trigger] leads(choices, board, i) && a == choices[i].1
    ||| {
        &&& forall|j: int|
            0 <= j < choices.len() ==> board.score_of((#[trigger] choices[j]).0) is None
        &&& a == idle
    }
}

/// Picks the first action whose scorer reaches a threshold.
#[derive(Clone, Copy, Debug, PartialEq, Eq, Structural)]
pub struct FirstToScore {
    threshold: Score,
}

/// Picks the action whose scorer scores highest.
#[derive(Clone, Copy, Debug, PartialEq, Eq, Structural)]
pub struct Highest;

/// The picking strategy of an agent.
#[derive(Clone, Copy, Debug, PartialEq, Eq, Structural)]
pub enum Strategy {
    FirstToScore(FirstToScore),
    Highest(Highest),
}

impl FirstToScore {
    /// The threshold that a scorer has to reach.
    pub closed spec fn spec_threshold(&self) -> Score {
        self.threshold
    }

    /// The strategy with the given threshold.
    pub fn new(threshold: Score) -> (s: Self)
        ensures
            s.spec_threshold() == threshold,
    {
        FirstToScore { threshold }
    }

    /// The threshold that a scorer has to reach.
    #[verifier::when_used_as_spec(spec_threshold)]
    pub fn threshold(&self) -> (t: Score)
        ensures
            t == self.spec_threshold(),
    {
        self.threshold
    }

    /// The action of the first of `choices` whose scorer reaches the
    /// threshold on `board`, or `idle` if none does.
    pub fn choose_from(
        &self,
        choices: &Vec<(Entity, ActionId)>,
        board: &Scoreboard,
        idle: ActionId,
    ) -> (a: ActionId)
        ensures
            is_first_to_score(choices@, board, self.spec_threshold(), idle, a),
    {
        let n = choices.len();
        let mut i: usize = 0;
        while i < n
            invariant
                i <= n,
                n == choices@.len(),
                forall|j: int|
                    0 <= j < i ==> !qualifies(#[trigger] choices@[j], board, self.threshold),
            decreases n - i,
        {
            let (scorer, action) = choices[i];
            match board.score(scorer) {
                Some(s) => {
                    if s.raw >= self.threshold.raw {
                        assert(qualifies(choices@[i as int], board, self.threshold));
                        return action;
                    }
                },
                None => {},
            }
            i = i + 1;
        }
        idle
    }
}

impl Highest {
    /// The action of the first of `choices` whose scorer has the highest
    /// score on `board`, or `idle` if no scorer has a score.
    pub fn choose_from(
        &self,
        choices: &Vec<(Entity, ActionId)>,
        board: &Scoreboard,
        idle: ActionId,
    ) -> (a: ActionId)
        ensures
            is_highest(choices@, board, idle, a),
    {
        let n = choices.len();
        let mut best: Option<(usize, Score)> = None;
        let mut i: usize = 0;
        while i < n
            invariant
                i <= n,
                n == choices@.len(),
                match best {
                    Some((at, top)) => {
                        &&& at < i
                        &&& board.score_of(choices@[at as int].0) == Some(top)
                        &&& forall|j: int|
                            0 <= j < i ==> match board.score_of((#[trigger] choices@[j]).0) {
                                Some(s) => s@ < top@ || (s@ == top@ && j >= at),
                                None => true,
                            }
                    },
                    None => forall|j: int|
                        0 <= j < i ==> board.score_of((#[trigger] choices@[j]).0) is None,
                },
            decreases n - i,
        {
            let (scorer, _) = choices[i];
            match board.score(scorer) {
                Some(s) => {
                    match best {
                        Some((_, top)) => {
                            if s.raw > top.raw {
                                best = Some((i, s));
                            }
                        },
                        None => {
                            best = Some((i, s));
                        },
                    }
                },
                None => {},
            }
            i = i + 1;
        }
        match best {
            Some((at, _)) => {
                assert(leads(choices@, board, at as int));
                choices[at].1
            },
            None => idle,
        }
    }
}

impl Strategy {
    /// Whether `a` is what this strategy picks from `choices` on `board`.
    pub open spec fn picks(
        &self,
        choices: Seq<(Entity, ActionId)>,
        board: &Scoreboard,
        idle: ActionId,
        a: ActionId,
    ) -> bool {
        match self {
            Strategy::FirstToScore(s) => is_first_to_score(
                choices,
                board,
                s.spec_threshold(),
                idle,
                a,
            ),
            Strategy::Highest(_) => is_highest(choices, board, idle, a),
        }
    }

    /// The action that this strategy picks from `choices` on `board`.
    pub fn choose_from(
        &self,
        choices: &Vec<(Entity, ActionId)>,
        board: &Scoreboard,
        idle: ActionId,
    ) -> (a: ActionId)
        ensures
            self.picks(choices@, board, idle, a),
    {
        match self {
            Strategy::FirstToScore(s) => s.choose_from(choices, board, idle),
            Strategy::Highest(s) => s.choose_from(choices, board, idle),
        }
    }
}

impl Picker {
    /// The action that is picked when no scorer calls for another.
    pub closed spec fn spec_idle(&self) -> ActionId {
        self.idle
    }

    /// The scorers with their actions, in the order in which they were registered.
    pub closed spec fn choices(&self) -> Seq<(Entity, ActionId)> {
        self.choices@
    }

    /// The action picked last.
    pub closed spec fn spec_picked(&self) -> ActionId {
        self.picked
    }

    /// No scorer is registered twice, and the picked action is the idle
    /// action or a registered one.
    #[verifier::type_invariant]
    pub closed spec fn inv(&self) -> bool {
        &&& forall|i: int, j: int|
            0 <= i < j < self.choices@.len() ==> (#[trigger] self.choices@[i]).0 != (
            #[trigger] self.choices@[j]).0
        &&& self.picked == self.idle || has_action(self.choices@, self.picked)
    }

    /// A picker with the idle action `idle` and no scorers, which has picked `idle`.
    pub fn new(idle: ActionId) -> (p: Self)
        ensures
            p.spec_idle() == idle,
            p.spec_picked() == idle,
            p.choices().len() == 0,
    {
        Picker { idle, choices: Vec::new(), picked: idle }
    }

    /// Registers `action` for the scorer `scorer`, behind those registered
    /// before. A scorer that is registered already keeps its first action.
    pub fn with(self, scorer: Entity, action: ActionId) -> (p: Self)
        ensures
            p.spec_idle() == self.spec_idle(),
            p.spec_picked() == self.spec_picked(),
            p.choices() == if has_scorer(self.choices(), scorer) {
                self.choices()
            } else {
                self.choices().push((scorer, action))
            },
    {
        proof {
            use_type_invariant(&self);
        }
        let n = self.choices.len();
        let mut i: usize = 0;
        while i < n
            invariant
                i <= n,
                n == self.choices@.len(),
                forall|j: int| 0 <= j < i ==> (#[trigger] self.choices@[j]).0 != scorer,
            decreases n - i,
        {
            if self.choices[i].0 == scorer {
                return self;
            }
            i = i + 1;
        }
        let idle = self.idle;
        let picked = self.picked;
        let mut choices = self.choices;
        let ghost before = choices@;
        choices.push((scorer, action));
        proof {
            if has_action(before, picked) {
                let k = choose|k: int| 0 <= k < before.len() && (#[trigger] before[k]).1 == picked;
                assert(choices@[k].1 == picked);
            }
        }
        Picker { idle, choices, picked }
    }

    /// The action that is picked when no scorer calls for another.
    #[verifier::when_used_as_spec(spec_idle)]
    pub fn idle(&self) -> (a: ActionId)
        ensures
            a == self.spec_idle(),
    {
        self.idle
    }

    /// The action picked last: the idle action or a registered one.
    #[verifier::when_used_as_spec(spec_picked)]
    pub fn picked(&self) -> (a: ActionId)
        ensures
            a == self.spec_picked(),
            a == self.spec_idle() || has_action(self.choices(), a),
    {
        proof {
            use_type_invariant(self);
        }
        self.picked
    }

    /// Handles the notification `event` that tells an agent to pick:
    /// `strategy` chooses among the registered scorers by their scores on
    /// `board`, which are read and not computed, and the choice replaces the
    /// picked action whatever it was.
    pub fn pick(&mut self, event: OnPick, strategy: &Strategy, board: &Scoreboard) -> (ev: OnPicked)
        ensures
            ev.entity == event.entity,
            strategy.picks(old(self).choices(), board, old(self).spec_idle(), ev.action),
            final(self).spec_picked() == ev.action,
            final(self).spec_idle() == old(self).spec_idle(),
            final(self).choices() == old(self).choices(),
    {
        proof {
            use_type_invariant(&*self);
        }
        let action = strategy.choose_from(&self.choices, board, self.idle);
        self.picked = action;
        OnPicked { entity: event.entity, action }
    }
}

/// What any strategy picks is the idle action or the action of a registered scorer.
pub proof fn lemma_picks_configured(
    strategy: Strategy,
    choices: Seq<(Entity, ActionId)>,
    board: &Scoreboard,
    idle: ActionId,
    a: ActionId,
)
    requires
        strategy.picks(choices, board, idle, a),
    ensures
        a == idle || has_action(choices, a),
{
    if a != idle {
        match strategy {
            Strategy::FirstToScore(s) => {
                let i = choose|i: int|
                    {
                        &&& 0 <= i < choices.len()
                        &&& qualifies(#[trigger] choices[i], board, s.spec_threshold())
                        &&& forall|j: int|
                            0 <= j < i ==> !qualifies(
                                #[trigger] choices[j],
                                board,
                                s.spec_threshold(),
                            )
                        &&& a == choices[i].1
                    };
                assert(choices[i].1 == a);
            },
            Strategy::Highest(_) => {
                let i = choose|i: int| #[trigger] leads(choices, board, i) && a == choices[i].1;
                assert(choices[i].1 == a);
            },
        }
    }
}

} // verus!
