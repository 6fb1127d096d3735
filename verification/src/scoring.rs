//! The score combinators and the scoring pass over a score tree.

pub mod all_or_nothing;
pub mod fixed;
pub mod product;
pub mod random;
pub mod sum;
pub mod winning;

use crate::event::{OnScore, RunScoring};
use crate::hierarchy::{Entity, Forest};
use crate::score::Score;
use crate::scoring::all_or_nothing::{all_or_nothing_score, AllOrNothing};
use crate::scoring::fixed::FixedScore;
use crate::scoring::product::{product_score, Product};
use crate::scoring::random::RandomScore;
use crate::scoring::sum::{sum_score, Sum};
use crate::scoring::winning::{winning_score, Winning};
use crate::traversal::{
    lemma_children_first, lemma_parent_later, lemma_stays_below, post_order, DFSPostTraversal,
};
use vstd::prelude::*;

verus! {

/// The combinator of one scoring entity: exactly one kind of aggregation.
pub enum Scorer {
    Fixed(FixedScore),
    Sum(Sum),
    Product(Product),
    AllOrNothing(AllOrNothing),
    Winning(Winning),
    Random(RandomScore),
}

impl Scorer {
    /// Whether `s` is a score that this combinator can give to an entity
    /// whose children score `children`. Every kind but the random one allows
    /// exactly one score.
    pub open spec fn allows(&self, children: Seq<Score>, s: Score) -> bool {
        match self {
            Scorer::Fixed(c) => s == c.spec_value(),
            Scorer::Sum(c) => s@ == sum_score(children, c.spec_threshold()),
            Scorer::Product(c) => s@ == product_score(
                children,
                c.spec_threshold(),
                c.spec_compensation(),
            ),
            Scorer::AllOrNothing(c) => s@ == all_or_nothing_score(children, c.spec_threshold()),
            Scorer::Winning(c) => s@ == winning_score(children, c.spec_threshold()),
            Scorer::Random(c) => c.range.holds(s),
        }
    }

    /// Whether the two combinators follow the same rule: the same kind with
    /// the same settings. The state of a pseudorandom source is no setting.
    pub open spec fn same_rule(&self, other: &Scorer) -> bool {
        match (self, other) {
            (Scorer::Random(a), Scorer::Random(b)) => a.range == b.range,
            (Scorer::Random(_), _) => false,
            (_, Scorer::Random(_)) => false,
            _ => *self == *other,
        }
    }

    /// The score of an entity with this combinator whose children score `children`.
    pub fn evaluate(&mut self, children: &Vec<Score>) -> (s: Score)
        ensures
            old(self).allows(children@, s),
            final(self).same_rule(old(self)),
    {
        match self {
            Scorer::Fixed(c) => c.evaluate(children),
            Scorer::Sum(c) => c.evaluate(children),
            Scorer::Product(c) => c.evaluate(children),
            Scorer::AllOrNothing(c) => c.evaluate(children),
            Scorer::Winning(c) => c.evaluate(children),
            Scorer::Random(c) => c.evaluate(),
        }
    }
}

/// Whether the two optional combinators follow the same rule.
pub open spec fn same_rule_opt(a: Option<Scorer>, b: Option<Scorer>) -> bool {
    match (a, b) {
        (Some(p), Some(q)) => p.same_rule(&q),
        (None, None) => true,
        _ => false,
    }
}

/// The scoring state of the entities: each may have a score, and each may
/// have a combinator that computes it.
pub struct Scoreboard {
    scores: Vec<Option<Score>>,
    scorers: Vec<Option<Scorer>>,
}

impl Scoreboard {
    /// The score of `e`, if it has one.
    pub closed spec fn score_of(&self, e: Entity) -> Option<Score> {
        if e.id < self.scores@.len() {
            self.scores@[e.id as int]
        } else {
            None
        }
    }

    /// The combinator of `e`, if it has one.
    pub closed spec fn scorer_of(&self, e: Entity) -> Option<Scorer> {
        if e.id < self.scorers@.len() {
            self.scorers@[e.id as int]
        } else {
            None
        }
    }

    /// The scores of those entities of `kids` that have one, in order.
    pub open spec fn child_scores(&self, kids: Seq<Entity>) -> Seq<Score>
        decreases kids.len(),
    {
        if kids.len() == 0 {
            Seq::empty()
        } else {
            let rest = self.child_scores(kids.drop_last());
            match self.score_of(kids.last()) {
                Some(s) => rest.push(s),
                None => rest,
            }
        }
    }

    /// Every entity follows the same scoring rule in `self` as in `other`.
    pub open spec fn same_rules(&self, other: &Scoreboard) -> bool {
        forall|x: Entity| same_rule_opt(#[trigger] self.scorer_of(x), other.scorer_of(x))
    }

    /// Whether `before` lets the score of `x` be computed: it has a score and a combinator.
    pub open spec fn computes(&self, x: Entity) -> bool {
        self.score_of(x) is Some && self.scorer_of(x) is Some
    }

    /// The score of `x` in `self` is what a scoring pass that started from
    /// `before` leaves: the score that its combinator allows over the scores
    /// that its children have in `self`, or, where `before` computes none, the
    /// score that it had.
    pub open spec fn settled(&self, f: &Forest, before: &Scoreboard, x: Entity) -> bool {
        if before.computes(x) {
            self.score_of(x) matches Some(s) && before.scorer_of(x)->0.allows(
                self.child_scores(f.children_of(x)),
                s,
            )
        } else {
            self.score_of(x) == before.score_of(x)
        }
    }

    /// `self` is a result of one notification for `e` on `before`: the rules
    /// and all other scores are as before, and the score of `e` is computed
    /// from the scores of its children.
    pub open spec fn scored_one(&self, f: &Forest, before: &Scoreboard, e: Entity) -> bool {
        &&& self.same_rules(before)
        &&& forall|x: Entity| x != e ==> (#[trigger] self.score_of(x)) == before.score_of(x)
        &&& self.settled(f, before, e)
    }

    /// `self` is a result of a scoring pass from `root` on `before`: the rules
    /// are as before, every entity outside the post-order of `root` has the
    /// score that it had, and every entity in it is settled.
    pub open spec fn scored_from(&self, f: &Forest, before: &Scoreboard, root: Entity) -> bool {
        &&& self.same_rules(before)
        &&& forall|x: Entity|
            !post_order(f, root).contains(x) ==> (#[trigger] self.score_of(x)) == before.score_of(x)
        &&& forall|x: Entity|
            post_order(f, root).contains(x) ==> #[trigger] self.settled(f, before, x)
    }

    /// A board on which no entity has a score or a combinator.
    pub fn new() -> (b: Self)
        ensures
            forall|x: Entity| (#[trigger] b.score_of(x)) is None,
            forall|x: Entity| (#[trigger] b.scorer_of(x)) is None,
    {
        Scoreboard { scores: Vec::new(), scorers: Vec::new() }
    }

    /// The score of `e`, if it has one.
    pub fn score(&self, e: Entity) -> (s: Option<Score>)
        ensures
            s == self.score_of(e),
    {
        if e.id < self.scores.len() {
            self.scores[e.id]
        } else {
            None
        }
    }

    /// Gives `e` the score `s`, whether or not it had one.
    pub fn set_score(&mut self, e: Entity, s: Score)
        ensures
            final(self).score_of(e) == Some(s),
            forall|x: Entity| x != e ==> (#[trigger] final(self).score_of(x)) == old(self).score_of(x),
            forall|x: Entity| (#[trigger] final(self).scorer_of(x)) == old(self).scorer_of(x),
    {
        while self.scores.len() <= e.id
            invariant
                forall|x: Entity| (#[trigger] self.score_of(x)) == old(self).score_of(x),
                self.scorers == old(self).scorers,
            decreases e.id + 1 - self.scores@.len(),
        {
            let ghost prev = *self;
            self.scores.push(None);
            assert forall|x: Entity| (#[trigger] self.score_of(x)) == old(self).score_of(x) by {
                assert(self.score_of(x) == prev.score_of(x));
            }
        }
        let ghost grown = *self;
        self.scores.set(e.id, Some(s));
        assert forall|x: Entity| x != e implies (#[trigger] self.score_of(x)) == old(
            self,
        ).score_of(x) by {
            assert(self.score_of(x) == grown.score_of(x));
        }
    }

    /// Gives `e` the combinator `scorer`, in place of the one it had, if any.
    pub fn set_scorer(&mut self, e: Entity, scorer: Scorer)
        ensures
            final(self).scorer_of(e) == Some(scorer),
            forall|x: Entity| x != e ==> (#[trigger] final(self).scorer_of(x)) == old(self).scorer_of(x),
            forall|x: Entity| (#[trigger] final(self).score_of(x)) == old(self).score_of(x),
    {
        while self.scorers.len() <= e.id
            invariant
                forall|x: Entity| (#[trigger] self.scorer_of(x)) == old(self).scorer_of(x),
                self.scores == old(self).scores,
            decreases e.id + 1 - self.scorers@.len(),
        {
            let ghost prev = *self;
            self.scorers.push(None);
            assert forall|x: Entity| (#[trigger] self.scorer_of(x)) == old(self).scorer_of(x) by {
                assert(self.scorer_of(x) == prev.scorer_of(x));
            }
        }
        let ghost grown = *self;
        self.scorers.set(e.id, Some(scorer));
        assert forall|x: Entity| x != e implies (#[trigger] self.scorer_of(x)) == old(
            self,
        ).scorer_of(x) by {
            assert(self.scorer_of(x) == grown.scorer_of(x));
        }
    }

    /// Takes the combinator of `e` away, and returns it if there was one.
    pub fn take_scorer(&mut self, e: Entity) -> (r: Option<Scorer>)
        ensures
            r == old(self).scorer_of(e),
            final(self).scorer_of(e) is None,
            forall|x: Entity| x != e ==> (#[trigger] final(self).scorer_of(x)) == old(self).scorer_of(x),
            forall|x: Entity| (#[trigger] final(self).score_of(x)) == old(self).score_of(x),
    {
        if e.id >= self.scorers.len() {
            return None;
        }
        let mut slot: Option<Scorer> = None;
        std::mem::swap(&mut slot, &mut self.scorers[e.id]);
        assert forall|x: Entity| x != e implies (#[trigger] self.scorer_of(x)) == old(
            self,
        ).scorer_of(x) by {}
        slot
    }

    /// The scores of those entities of `kids` that have one, in order.
    pub fn gather(&self, kids: &Vec<Entity>) -> (values: Vec<Score>)
        ensures
            values@ == self.child_scores(kids@),
    {
        let n = kids.len();
        let mut values: Vec<Score> = Vec::new();
        let mut i: usize = 0;
        while i < n
            invariant
                i <= n,
                n == kids@.len(),
                values@ == self.child_scores(kids@.subrange(0, i as int)),
            decreases n - i,
        {
            assert(kids@.subrange(0, i as int + 1).drop_last() =~= kids@.subrange(0, i as int));
            match self.score(kids[i]) {
                Some(s) => {
                    values.push(s);
                },
                None => {},
            }
            i = i + 1;
        }
        assert(kids@.subrange(0, n as int) =~= kids@);
        values
    }

    /// Handles the notification `event` to compute the score of an entity:
    /// if the entity has a score and a combinator, the combinator computes
    /// the score anew from the scores of the entity's children. Otherwise
    /// nothing happens.
    pub fn score_entity(&mut self, f: &Forest, event: OnScore)
        requires
            f.wf(),
        ensures
            final(self).scored_one(f, old(self), event.entity),
    {
        let e = event.entity;
        if e.id >= self.scores.len() || e.id >= self.scorers.len() {
            proof {
                self.lemma_unchanged(old(self), f, e);
            }
            return ;
        }
        if self.scores[e.id].is_none() {
            proof {
                self.lemma_unchanged(old(self), f, e);
            }
            return ;
        }
        let values = match f.children(e) {
            Some(kids) => self.gather(kids),
            None => Vec::new(),
        };
        assert(values@ == self.child_scores(f.children_of(e)));
        let mut slot: Option<Scorer> = None;
        std::mem::swap(&mut slot, &mut self.scorers[e.id]);
        match slot {
            Some(scorer) => {
                let mut scorer = scorer;
                let s = scorer.evaluate(&values);
                self.scorers.set(e.id, Some(scorer));
                self.scores.set(e.id, Some(s));
                proof {
                    assert forall|x: Entity|
                        same_rule_opt(
                            #[trigger] self.scorer_of(x),
                            old(self).scorer_of(x),
                        ) by {
                        if x != e {
                            old(self).lemma_same_rules_refl();
                        }
                    }
                    old(self).lemma_child_scores_frame(self, f.children_of(e));
                }
            },
            None => {
                self.scorers.set(e.id, None);
                proof {
                    assert(self.scorers@ =~= old(self).scorers@);
                    self.lemma_unchanged(old(self), f, e);
                }
            },
        }
    }

    /// Every combinator follows the same rule as itself.
    pub proof fn lemma_same_rules_refl(&self)
        ensures
            self.same_rules(self),
    {
    }

    /// A board with the scores and combinators of `before` is a result of a
    /// notification for an entity whose score `before` does not compute.
    proof fn lemma_unchanged(&self, before: &Scoreboard, f: &Forest, e: Entity)
        requires
            forall|x: Entity| (#[trigger] self.score_of(x)) == before.score_of(x),
            forall|x: Entity| (#[trigger] self.scorer_of(x)) == before.scorer_of(x),
            !before.computes(e),
        ensures
            self.scored_one(f, before, e),
    {
        before.lemma_same_rules_refl();
    }

    /// Two boards that agree on the scores of `kids` give the same child scores.
    pub proof fn lemma_child_scores_frame(&self, other: &Scoreboard, kids: Seq<Entity>)
        requires
            forall|k: int| 0 <= k < kids.len() ==> self.score_of(#[trigger] kids[k]) == other.score_of(kids[k]),
        ensures
            self.child_scores(kids) == other.child_scores(kids),
        decreases kids.len(),
    {
        if kids.len() > 0 {
            let front = kids.drop_last();
            assert forall|k: int| 0 <= k < front.len() implies self.score_of(#[trigger] front[k])
                == other.score_of(front[k]) by {
                assert(front[k] == kids[k]);
            }
            self.lemma_child_scores_frame(other, front);
            assert(kids.last() == kids[kids.len() - 1]);
        }
    }

    /// What holds of the board `self` while a pass from `root` that started
    /// on `before` has handled the first `i` entities of the post-order.
    pub open spec fn scored_upto(
        &self,
        f: &Forest,
        before: &Scoreboard,
        root: Entity,
        i: int,
    ) -> bool {
        let order = post_order(f, root);
        &&& self.same_rules(before)
        &&& forall|x: Entity|
            !order.take(i).contains(x) ==> (#[trigger] self.score_of(x)) == before.score_of(x)
        &&& forall|x: Entity|
            !before.computes(x) ==> (#[trigger] self.score_of(x)) == before.score_of(x)
        &&& forall|x: Entity| before.computes(x) ==> (#[trigger] self.score_of(x)) is Some
        &&& forall|x: Entity|
            order.take(i).contains(x) && !order.skip(i).contains(x) ==> #[trigger] self.settled(
                f,
                before,
                x,
            )
    }

    /// One more notification, for the entity at position `i`, carries a pass on by one position.
    proof fn lemma_pass_step(
        &self,
        f: &Forest,
        before: &Scoreboard,
        prev: &Scoreboard,
        root: Entity,
        i: int,
    )
        requires
            f.wf(),
            0 <= i < post_order(f, root).len(),
            prev.scored_upto(f, before, root, i),
            self.scored_one(f, prev, post_order(f, root)[i]),
        ensures
            self.scored_upto(f, before, root, i + 1),
    {
        let order = post_order(f, root);
        let e = order[i];
        assert(order.take(i + 1)[i] == e);
        assert forall|x: Entity| same_rule_opt(
            #[trigger] self.scorer_of(x),
            before.scorer_of(x),
        ) by {
            assert(same_rule_opt(self.scorer_of(x), prev.scorer_of(x)));
            assert(same_rule_opt(prev.scorer_of(x), before.scorer_of(x)));
        }
        assert(same_rule_opt(prev.scorer_of(e), before.scorer_of(e)));
        assert(prev.computes(e) == before.computes(e)) by {
            if before.computes(e) {
                assert(prev.score_of(e) is Some);
            } else {
                assert(prev.score_of(e) == before.score_of(e));
            }
        }
        assert forall|x: Entity| !order.take(i + 1).contains(x) implies (#[trigger] self.score_of(
            x,
        )) == before.score_of(x) by {
            let done = order.take(i);
            if done.contains(x) {
                let k = choose|k: int| 0 <= k < done.len() && done[k] == x;
                assert(order.take(i + 1)[k] == x);
            }
            assert(self.score_of(x) == prev.score_of(x));
        }
        assert forall|x: Entity| !before.computes(x) implies (#[trigger] self.score_of(x))
            == before.score_of(x) by {
            assert(prev.score_of(x) == before.score_of(x));
        }
        assert forall|x: Entity| before.computes(x) implies (#[trigger] self.score_of(x))
            is Some by {
            assert(prev.score_of(x) is Some);
        }
        assert forall|x: Entity|
            order.take(i + 1).contains(x) && !order.skip(i + 1).contains(
                x,
            ) implies #[trigger] self.settled(f, before, x) by {
            if x == e {
                if before.computes(e) {
                    lemma_same_rule_allows(
                        prev.scorer_of(e)->0,
                        before.scorer_of(e)->0,
                        self.child_scores(f.children_of(e)),
                        self.score_of(e)->0,
                    );
                } else {
                    assert(prev.score_of(e) == before.score_of(e));
                }
            } else {
                let done = order.take(i + 1);
                let at = choose|k: int| 0 <= k < done.len() && done[k] == x;
                assert(order.take(i)[at] == x);
                let rest = order.skip(i);
                if rest.contains(x) {
                    let k = choose|k: int| 0 <= k < rest.len() && rest[k] == x;
                    assert(order.skip(i + 1)[k - 1] == x);
                }
                assert(prev.settled(f, before, x));
                assert(self.score_of(x) == prev.score_of(x));
                let kids = f.children_of(x);
                assert forall|k: int| 0 <= k < kids.len() implies prev.score_of(
                    #[trigger] kids[k],
                ) == self.score_of(kids[k]) by {
                    if kids[k] == e {
                        assert(order[at] == x);
                        if i < order.len() - 1 {
                            let j = lemma_parent_later(f, root, i);
                            assert(order.skip(i + 1)[j - i - 1] == x);
                        } else {
                            lemma_stays_below(f, root, at);
                        }
                    } else {
                        assert(self.score_of(kids[k]) == prev.score_of(kids[k]));
                    }
                }
                prev.lemma_child_scores_frame(self, kids);
            }
        }
    }

    /// Runs a scoring pass from `root`: every entity below and including
    /// `root` is notified in post-order, so the score of each is computed
    /// after the scores of all its descendants.
    pub fn score_from(&mut self, f: &Forest, traversal: &mut DFSPostTraversal, root: Entity)
        requires
            f.wf(),
        ensures
            final(self).scored_from(f, old(self), root),
    {
        let order = traversal.collect(f, root);
        let n = order.len();
        let mut i: usize = 0;
        proof {
            old(self).lemma_same_rules_refl();
            assert(order@.take(0) =~= Seq::<Entity>::empty());
        }
        while i < n
            invariant
                f.wf(),
                order@ == post_order(f, root),
                n == order@.len(),
                i <= n,
                self.scored_upto(f, old(self), root, i as int),
            decreases n - i,
        {
            let ghost prev = *self;
            self.score_entity(f, OnScore { entity: order[i] });
            proof {
                self.lemma_pass_step(f, old(self), &prev, root, i as int);
            }
            i = i + 1;
        }
        proof {
            assert(order@.take(n as int) =~= order@);
            assert(order@.skip(n as int) =~= Seq::<Entity>::empty());
            assert forall|x: Entity| post_order(f, root).contains(x) implies #[trigger] self.settled(
                f,
                old(self),
                x,
            ) by {
                assert(order@.take(n as int).contains(x));
                assert(!order@.skip(n as int).contains(x));
            }
        }
    }

    /// Whether some proper ancestor of `e` has a score.
    pub open spec fn has_scoring_ancestor(&self, f: &Forest, e: Entity) -> bool
        decreases e.id,
    {
        match f.parent_of(e) {
            Some(p) => p.id < e.id && (self.score_of(p) is Some || self.has_scoring_ancestor(f, p)),
            None => false,
        }
    }

    /// Whether `e` is the root of a score tree: an entity of the forest that
    /// has a score, below no entity that has one.
    pub open spec fn is_root(&self, f: &Forest, e: Entity) -> bool {
        f.has(e) && self.score_of(e) is Some && !self.has_scoring_ancestor(f, e)
    }

    /// Whether `x` lies in the score tree of a root that was created before the entity numbered `k`.
    pub open spec fn covered(&self, f: &Forest, x: Entity, k: int) -> bool {
        exists|r: Entity| r.id < k && #[trigger] self.is_root(f, r) && post_order(f, r).contains(x)
    }

    /// `self` is a result of scoring, on `before`, the score trees of all
    /// roots created before the entity numbered `k`: the rules are as before,
    /// every entity in one of these trees is settled, and every other entity
    /// has the score that it had.
    pub open spec fn scored_all_upto(&self, f: &Forest, before: &Scoreboard, k: int) -> bool {
        &&& self.same_rules(before)
        &&& forall|x: Entity|
            !before.computes(x) ==> (#[trigger] self.score_of(x)) == before.score_of(x)
        &&& forall|x: Entity| before.computes(x) ==> (#[trigger] self.score_of(x)) is Some
        &&& forall|x: Entity|
            !before.covered(f, x, k) ==> (#[trigger] self.score_of(x)) == before.score_of(x)
        &&& forall|x: Entity|
            before.covered(f, x, k) ==> #[trigger] self.settled(f, before, x)
    }

    /// `self` is a result of scoring all score trees of `before`.
    pub open spec fn scored_all(&self, f: &Forest, before: &Scoreboard) -> bool {
        self.scored_all_upto(f, before, f.size() as int)
    }

    /// Boards on which the same entities have a score have the same roots.
    proof fn lemma_same_ancestors(&self, other: &Scoreboard, f: &Forest, e: Entity)
        requires
            forall|x: Entity| (#[trigger] self.score_of(x)) is Some == other.score_of(x) is Some,
        ensures
            self.has_scoring_ancestor(f, e) == other.has_scoring_ancestor(f, e),
        decreases e.id,
    {
        match f.parent_of(e) {
            Some(p) => {
                if p.id < e.id {
                    assert(self.score_of(p) is Some == other.score_of(p) is Some);
                    self.lemma_same_ancestors(other, f, p);
                }
            },
            None => {},
        }
    }

    /// Whether some proper ancestor of `e` has a score.
    pub fn scoring_ancestor(&self, f: &Forest, e: Entity) -> (b: bool)
        requires
            f.wf(),
        ensures
            b == self.has_scoring_ancestor(f, e),
    {
        let mut current = e;
        loop
            invariant
                f.wf(),
                self.has_scoring_ancestor(f, current) == self.has_scoring_ancestor(f, e),
            decreases current.id,
        {
            match f.parent(current) {
                Some(p) => {
                    proof {
                        assert(f.is_child(p, current));
                    }
                    if self.score(p).is_some() {
                        return true;
                    }
                    current = p;
                },
                None => {
                    return false;
                },
            }
        }
    }

    /// Skipping an entity that is no root carries a scoring of all trees on by one entity.
    proof fn lemma_all_skip(&self, f: &Forest, before: &Scoreboard, k: int)
        requires
            self.scored_all_upto(f, before, k),
            !before.is_root(f, Entity { id: k as usize }),
            0 <= k <= usize::MAX,
        ensures
            self.scored_all_upto(f, before, k + 1),
    {
        assert forall|x: Entity| before.covered(f, x, k + 1) == before.covered(f, x, k) by {
            if before.covered(f, x, k + 1) {
                let r = choose|r: Entity|
                    r.id < k + 1 && #[trigger] before.is_root(f, r) && post_order(f, r).contains(x);
                assert(r != Entity { id: k as usize });
                assert(r.id < k);
            }
        }
    }

    /// A pass from a root carries a scoring of all trees on by one entity.
    proof fn lemma_all_step(&self, f: &Forest, before: &Scoreboard, prev: &Scoreboard, k: int)
        requires
            f.wf(),
            0 <= k <= usize::MAX,
            prev.scored_all_upto(f, before, k),
            before.is_root(f, Entity { id: k as usize }),
            self.scored_from(f, prev, Entity { id: k as usize }),
        ensures
            self.scored_all_upto(f, before, k + 1),
    {
        let r = Entity { id: k as usize };
        let order = post_order(f, r);
        assert forall|x: Entity| same_rule_opt(
            #[trigger] self.scorer_of(x),
            before.scorer_of(x),
        ) by {
            assert(same_rule_opt(self.scorer_of(x), prev.scorer_of(x)));
            assert(same_rule_opt(prev.scorer_of(x), before.scorer_of(x)));
        }
        assert forall|x: Entity| prev.computes(x) == before.computes(x) by {
            assert(same_rule_opt(prev.scorer_of(x), before.scorer_of(x)));
            if before.computes(x) {
                assert(prev.score_of(x) is Some);
            } else {
                assert(prev.score_of(x) == before.score_of(x));
            }
        }
        assert forall|x: Entity| !before.computes(x) implies (#[trigger] self.score_of(x))
            == before.score_of(x) by {
            assert(prev.score_of(x) == before.score_of(x));
            if order.contains(x) {
                assert(self.settled(f, prev, x));
            } else {
                assert(self.score_of(x) == prev.score_of(x));
            }
        }
        assert forall|x: Entity| before.computes(x) implies (#[trigger] self.score_of(x))
            is Some by {
            assert(prev.score_of(x) is Some);
            if order.contains(x) {
                assert(self.settled(f, prev, x));
            } else {
                assert(self.score_of(x) == prev.score_of(x));
            }
        }
        assert forall|x: Entity| !before.covered(f, x, k + 1) implies (#[trigger] self.score_of(
            x,
        )) == before.score_of(x) by {
            assert(!order.contains(x));
            assert(self.score_of(x) == prev.score_of(x));
            if before.covered(f, x, k) {
                let w = choose|w: Entity|
                    w.id < k && #[trigger] before.is_root(f, w) && post_order(f, w).contains(x);
                assert(w.id < k + 1);
            }
            assert(prev.score_of(x) == before.score_of(x));
        }
        assert forall|x: Entity| before.covered(f, x, k + 1) implies #[trigger] self.settled(
            f,
            before,
            x,
        ) by {
            if order.contains(x) {
                assert(self.settled(f, prev, x));
                if before.computes(x) {
                    lemma_same_rule_allows(
                        prev.scorer_of(x)->0,
                        before.scorer_of(x)->0,
                        self.child_scores(f.children_of(x)),
                        self.score_of(x)->0,
                    );
                } else {
                    assert(prev.score_of(x) == before.score_of(x));
                }
            } else {
                let w = choose|w: Entity|
                    w.id < k + 1 && #[trigger] before.is_root(f, w) && post_order(f, w).contains(x);
                assert(w != r);
                assert(w.id < k);
                assert(before.covered(f, x, k));
                assert(prev.settled(f, before, x));
                assert(self.score_of(x) == prev.score_of(x));
                if before.computes(x) {
                    let kids = f.children_of(x);
                    assert forall|j: int| 0 <= j < kids.len() implies prev.score_of(
                        #[trigger] kids[j],
                    ) == self.score_of(kids[j]) by {
                        let c = kids[j];
                        if order.contains(c) {
                            let i = choose|i: int| 0 <= i < order.len() && order[i] == c;
                            if i < order.len() - 1 {
                                let up = lemma_parent_later(f, r, i);
                                assert(order[up] == x);
                            } else {
                                assert(c == r);
                                assert(before.has_scoring_ancestor(f, r));
                            }
                        } else {
                            assert(self.score_of(c) == prev.score_of(c));
                        }
                    }
                    prev.lemma_child_scores_frame(self, kids);
                }
            }
        }
    }

    /// Runs a scoring pass from every root of a score tree, so that no
    /// subtree is scored more than once.
    pub fn score_all(&mut self, f: &Forest, traversal: &mut DFSPostTraversal)
        requires
            f.wf(),
        ensures
            final(self).scored_all(f, old(self)),
    {
        let n = f.len();
        let mut k: usize = 0;
        proof {
            old(self).lemma_same_rules_refl();
        }
        while k < n
            invariant
                f.wf(),
                n == f.size(),
                k <= n,
                self.scored_all_upto(f, old(self), k as int),
            decreases n - k,
        {
            let root = Entity { id: k };
            let ghost prev = *self;
            proof {
                assert forall|x: Entity| (#[trigger] self.score_of(x)) is Some == old(
                    self,
                ).score_of(x) is Some by {
                    if !old(self).computes(x) {
                        assert(self.score_of(x) == old(self).score_of(x));
                    }
                }
                self.lemma_same_ancestors(old(self), f, root);
            }
            if self.score(root).is_some() && !self.scoring_ancestor(f, root) {
                self.score_from(f, traversal, root);
                proof {
                    self.lemma_all_step(f, old(self), &prev, k as int);
                }
            } else {
                proof {
                    self.lemma_all_skip(f, old(self), k as int);
                }
            }
            k = k + 1;
        }
    }

    /// Handles the request `event`: scores the subtree of the entity that it
    /// names, or all score trees if it names none.
    pub fn run_scoring(&mut self, f: &Forest, traversal: &mut DFSPostTraversal, event: RunScoring)
        requires
            f.wf(),
        ensures
            match event.entity {
                Some(root) => final(self).scored_from(f, old(self), root),
                None => final(self).scored_all(f, old(self)),
            },
    {
        match event.entity {
            Some(root) => self.score_from(f, traversal, root),
            None => self.score_all(f, traversal),
        }
    }
}

/// Combinators that follow the same rule allow the same scores.
pub proof fn lemma_same_rule_allows(a: Scorer, b: Scorer, children: Seq<Score>, s: Score)
    requires
        a.same_rule(&b),
    ensures
        a.allows(children, s) == b.allows(children, s),
{
}

/// A combinator that is not random allows one score only.
pub proof fn lemma_one_score(a: Scorer, children: Seq<Score>, s: Score, t: Score)
    requires
        !(a is Random),
        a.allows(children, s),
        a.allows(children, t),
    ensures
        s == t,
{
    assert(s@ == t@);
}

/// After two passes from `root` on end, the entity at position `i` of the
/// post-order has the score that the first pass gave it.
proof fn lemma_second_pass_at(
    f: &Forest,
    root: Entity,
    b0: &Scoreboard,
    b1: &Scoreboard,
    b2: &Scoreboard,
    i: int,
)
    requires
        f.wf(),
        b1.scored_from(f, b0, root),
        b2.scored_from(f, b1, root),
        forall|x: Entity|
            post_order(f, root).contains(x) ==> !((#[trigger] b0.scorer_of(x)) matches Some(
                Scorer::Random(_),
            )),
        0 <= i < post_order(f, root).len(),
    ensures
        b2.score_of(post_order(f, root)[i]) == b1.score_of(post_order(f, root)[i]),
    decreases i,
{
    let order = post_order(f, root);
    let x = order[i];
    assert(order.contains(x));
    assert(b1.settled(f, b0, x));
    assert(b2.settled(f, b1, x));
    assert(same_rule_opt(b1.scorer_of(x), b0.scorer_of(x)));
    if b1.computes(x) {
        assert(b0.computes(x));
        let kids = f.children_of(x);
        assert forall|k: int| 0 <= k < kids.len() implies b1.score_of(#[trigger] kids[k])
            == b2.score_of(kids[k]) by {
            let j = lemma_children_first(f, root, i, k);
            lemma_second_pass_at(f, root, b0, b1, b2, j);
        }
        b1.lemma_child_scores_frame(b2, kids);
        let s1 = b1.score_of(x)->0;
        let s2 = b2.score_of(x)->0;
        lemma_same_rule_allows(b1.scorer_of(x)->0, b0.scorer_of(x)->0, b2.child_scores(kids), s2);
        lemma_one_score(b0.scorer_of(x)->0, b1.child_scores(kids), s1, s2);
    }
}

/// Scoring is idempotent: a second pass from the same root, with nothing
/// changed in between, leaves every score as the first pass left it. This
/// holds where no entity of the pass scores at random.
pub proof fn lemma_scoring_idempotent(
    f: &Forest,
    root: Entity,
    b0: &Scoreboard,
    b1: &Scoreboard,
    b2: &Scoreboard,
)
    requires
        f.wf(),
        b1.scored_from(f, b0, root),
        b2.scored_from(f, b1, root),
        forall|x: Entity|
            post_order(f, root).contains(x) ==> !((#[trigger] b0.scorer_of(x)) matches Some(
                Scorer::Random(_),
            )),
    ensures
        forall|x: Entity| (#[trigger] b2.score_of(x)) == b1.score_of(x),
{
    assert forall|x: Entity| (#[trigger] b2.score_of(x)) == b1.score_of(x) by {
        if post_order(f, root).contains(x) {
            let order = post_order(f, root);
            let i = choose|i: int| 0 <= i < order.len() && order[i] == x;
            lemma_second_pass_at(f, root, b0, b1, b2, i);
        }
    }
}

/// After all score trees were scored twice on end, the entity at position `i`
/// of the post-order of the root `r` has the score that the first time gave it.
proof fn lemma_second_time_at(
    f: &Forest,
    r: Entity,
    b0: &Scoreboard,
    b1: &Scoreboard,
    b2: &Scoreboard,
    i: int,
)
    requires
        f.wf(),
        b1.scored_all(f, b0),
        b2.scored_all(f, b1),
        b0.is_root(f, r),
        forall|x: Entity| !((#[trigger] b0.scorer_of(x)) matches Some(Scorer::Random(_))),
        0 <= i < post_order(f, r).len(),
    ensures
        b2.score_of(post_order(f, r)[i]) == b1.score_of(post_order(f, r)[i]),
    decreases i,
{
    let order = post_order(f, r);
    let x = order[i];
    let n = f.size() as int;
    assert(order.contains(x));
    assert(b0.covered(f, x, n));
    assert(b1.settled(f, b0, x));
    assert forall|y: Entity| (#[trigger] b1.score_of(y)) is Some == b0.score_of(y) is Some by {
        if !b0.computes(y) {
            assert(b1.score_of(y) == b0.score_of(y));
        }
    }
    b1.lemma_same_ancestors(b0, f, r);
    assert(b1.is_root(f, r));
    assert(b1.covered(f, x, n));
    assert(b2.settled(f, b1, x));
    assert(same_rule_opt(b1.scorer_of(x), b0.scorer_of(x)));
    if b1.computes(x) {
        let kids = f.children_of(x);
        assert forall|k: int| 0 <= k < kids.len() implies b1.score_of(#[trigger] kids[k])
            == b2.score_of(kids[k]) by {
            let j = lemma_children_first(f, r, i, k);
            lemma_second_time_at(f, r, b0, b1, b2, j);
        }
        b1.lemma_child_scores_frame(b2, kids);
        let s1 = b1.score_of(x)->0;
        let s2 = b2.score_of(x)->0;
        lemma_same_rule_allows(b1.scorer_of(x)->0, b0.scorer_of(x)->0, b2.child_scores(kids), s2);
        lemma_one_score(b0.scorer_of(x)->0, b1.child_scores(kids), s1, s2);
    }
}

/// Scoring all score trees is idempotent: a second time, with nothing
/// changed in between, leaves every score as the first time left it. This
/// holds where no entity scores at random.
pub proof fn lemma_scoring_all_idempotent(
    f: &Forest,
    b0: &Scoreboard,
    b1: &Scoreboard,
    b2: &Scoreboard,
)
    requires
        f.wf(),
        b1.scored_all(f, b0),
        b2.scored_all(f, b1),
        forall|x: Entity| !((#[trigger] b0.scorer_of(x)) matches Some(Scorer::Random(_))),
    ensures
        forall|x: Entity| (#[trigger] b2.score_of(x)) == b1.score_of(x),
{
    let n = f.size() as int;
    assert forall|x: Entity| (#[trigger] b2.score_of(x)) == b1.score_of(x) by {
        if b1.covered(f, x, n) {
            let r = choose|r: Entity|
                r.id < n && #[trigger] b1.is_root(f, r) && post_order(f, r).contains(x);
            assert forall|y: Entity| (#[trigger] b0.score_of(y)) is Some == b1.score_of(
                y,
            ) is Some by {
                if !b0.computes(y) {
                    assert(b1.score_of(y) == b0.score_of(y));
                } else {
                    assert(b1.score_of(y) is Some);
                }
            }
            b0.lemma_same_ancestors(b1, f, r);
            let order = post_order(f, r);
            let i = choose|i: int| 0 <= i < order.len() && order[i] == x;
            lemma_second_time_at(f, r, b0, b1, b2, i);
        }
    }
}

} // verus!
