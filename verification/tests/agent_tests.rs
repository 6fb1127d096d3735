use observed_utility::acting::{ActionEvent, CurrentAction};
use observed_utility::agent::{Agent, Agents};
use observed_utility::ancestor::{AncestorQuery, LookupError};
use observed_utility::event::{
    ActionEndReason, ActionId, OnActionEnded, OnActionInitiated, OnPick, OnPicked, RequestAction,
    RunPicking, RunScoring,
};
use observed_utility::hierarchy::{Entity, EntitySet, Forest};
use observed_utility::picking::{FirstToScore, Highest, Picker, Strategy};
use observed_utility::score::Score;
use observed_utility::scoring::Scoreboard;

const IDLE: ActionId = ActionId { id: 0 };
const ACTION_A: ActionId = ActionId { id: 1 };
const ACTION_B: ActionId = ActionId { id: 2 };

fn first_to_score(millionths: i64) -> Strategy {
    Strategy::FirstToScore(FirstToScore::new(Score::new(millionths)))
}

fn ended(entity: Entity, action: ActionId, reason: ActionEndReason) -> ActionEvent {
    ActionEvent::Ended(OnActionEnded { entity, action, reason })
}

fn initiated(entity: Entity, action: ActionId) -> ActionEvent {
    ActionEvent::Initiated(OnActionInitiated { entity, action })
}

#[test]
fn first_to_score_picks_the_first_scorer_at_threshold() {
    let mut board = Scoreboard::new();
    let (a, b) = (Entity { id: 1 }, Entity { id: 2 });
    board.set_score(a, Score::new(600_000));
    board.set_score(b, Score::new(300_000));
    let mut picker = Picker::new(IDLE).with(a, ACTION_A).with(b, ACTION_B);
    let ev = picker.pick(OnPick { entity: Entity { id: 0 } }, &first_to_score(500_000), &board);
    assert_eq!(OnPicked { entity: Entity { id: 0 }, action: ACTION_A }, ev);
    assert_eq!(ACTION_A, picker.picked());
}

#[test]
fn first_to_score_goes_by_order_not_by_height() {
    let mut board = Scoreboard::new();
    let (a, b, c) = (Entity { id: 1 }, Entity { id: 2 }, Entity { id: 3 });
    board.set_score(a, Score::new(499_999));
    board.set_score(b, Score::new(500_000));
    board.set_score(c, Score::new(900_000));
    let choices = vec![(a, ACTION_A), (b, ACTION_B), (c, ActionId { id: 3 })];
    let strategy = FirstToScore::new(Score::new(500_000));
    assert_eq!(500_000, strategy.threshold().get());
    assert_eq!(ACTION_B, strategy.choose_from(&choices, &board, IDLE));
    assert_eq!(IDLE, FirstToScore::new(Score::new(900_001)).choose_from(&choices, &board, IDLE));
    assert_eq!(IDLE, strategy.choose_from(&vec![], &board, IDLE));
    // a scorer without a score never qualifies
    let unscored = vec![(Entity { id: 9 }, ACTION_A), (c, ACTION_B)];
    assert_eq!(ACTION_B, FirstToScore::new(Score::new(-5)).choose_from(&unscored, &board, IDLE));
}

#[test]
fn highest_picks_the_highest_scorer() {
    let mut board = Scoreboard::new();
    let (a, b) = (Entity { id: 1 }, Entity { id: 2 });
    board.set_score(a, Score::new(300_000));
    board.set_score(b, Score::new(800_000));
    let mut picker = Picker::new(IDLE).with(a, ACTION_A).with(b, ACTION_B);
    picker.pick(OnPick { entity: Entity { id: 0 } }, &Strategy::Highest(Highest), &board);
    assert_eq!(ACTION_B, picker.picked());
}

#[test]
fn highest_has_no_floor_and_breaks_ties_by_order() {
    let mut board = Scoreboard::new();
    let (a, b, c) = (Entity { id: 1 }, Entity { id: 2 }, Entity { id: 3 });
    board.set_score(a, Score::new(-700_000));
    board.set_score(b, Score::new(-100_000));
    board.set_score(c, Score::new(-100_000));
    let choices = vec![(a, ACTION_A), (b, ACTION_B), (c, ActionId { id: 3 })];
    assert_eq!(ACTION_B, Highest.choose_from(&choices, &board, IDLE));
    assert_eq!(IDLE, Highest.choose_from(&vec![], &board, IDLE));
    let unscored = vec![(Entity { id: 8 }, ACTION_A), (Entity { id: 9 }, ACTION_B)];
    assert_eq!(IDLE, Highest.choose_from(&unscored, &board, IDLE));
    let mixed = vec![(Entity { id: 8 }, ACTION_A), (a, ACTION_B)];
    assert_eq!(ACTION_B, Strategy::Highest(Highest).choose_from(&mixed, &board, IDLE));
}

#[test]
fn picker_keeps_the_first_registration_of_a_scorer() {
    let mut board = Scoreboard::new();
    let a = Entity { id: 1 };
    board.set_score(a, Score::new(900_000));
    let mut picker = Picker::new(IDLE).with(a, ACTION_A).with(a, ACTION_B);
    assert_eq!(IDLE, picker.idle());
    assert_eq!(IDLE, picker.picked());
    picker.pick(OnPick { entity: Entity { id: 0 } }, &first_to_score(500_000), &board);
    assert_eq!(ACTION_A, picker.picked());
    // the pick is overwritten whatever it was
    board.set_score(a, Score::new(100_000));
    picker.pick(OnPick { entity: Entity { id: 0 } }, &first_to_score(500_000), &board);
    assert_eq!(IDLE, picker.picked());
}

#[test]
fn lifecycle_cancels_before_it_initiates() {
    let actor = Entity { id: 4 };
    let picker = Picker::new(IDLE);
    let mut current = CurrentAction::new(IDLE);
    assert_eq!(IDLE, current.get());

    let events = current.request(&picker, RequestAction::specific(actor, ACTION_A));
    assert_eq!(
        vec![ended(actor, IDLE, ActionEndReason::Cancelled), initiated(actor, ACTION_A)],
        events
    );
    assert_eq!(ACTION_A, current.get());

    // asking for the current action again sends nothing
    assert!(current.request(&picker, RequestAction::specific(actor, ACTION_A)).is_empty());
    assert_eq!(ACTION_A, current.get());

    let events = current.request(&picker, RequestAction::specific(actor, ACTION_B));
    assert_eq!(
        vec![ended(actor, ACTION_A, ActionEndReason::Cancelled), initiated(actor, ACTION_B)],
        events
    );
    assert_eq!(ACTION_B, current.get());

    // the cancellation of the old action leaves the new one in place
    current.ended(&picker, OnActionEnded::cancelled(actor, ACTION_A));
    assert_eq!(ACTION_B, current.get());
    // so does the completion of an action that is not current
    current.ended(&picker, OnActionEnded::completed(actor, ACTION_A));
    assert_eq!(ACTION_B, current.get());
    // and a cancellation of the current one
    current.ended(&picker, OnActionEnded::cancelled(actor, ACTION_B));
    assert_eq!(ACTION_B, current.get());

    current.ended(&picker, OnActionEnded::completed(actor, ACTION_B));
    assert_eq!(IDLE, current.get());
}

#[test]
fn request_for_the_picked_action_follows_the_picker() {
    let mut board = Scoreboard::new();
    let actor = Entity { id: 0 };
    let scorer = Entity { id: 1 };
    board.set_score(scorer, Score::new(900_000));
    let mut picker = Picker::new(IDLE).with(scorer, ACTION_A);
    let mut current = CurrentAction::new(IDLE);
    assert!(current.request(&picker, RequestAction::picked(actor)).is_empty());
    picker.pick(OnPick { entity: actor }, &first_to_score(500_000), &board);
    let events = current.request(&picker, RequestAction::picked(actor));
    assert_eq!(2, events.len());
    assert_eq!(initiated(actor, ACTION_A), events[1]);
    let events = current.switch_to(RequestAction::picked(actor), IDLE);
    assert_eq!(ended(actor, ACTION_A, ActionEndReason::Cancelled), events[0]);
    current.finish(ACTION_B, OnActionEnded::completed(actor, IDLE));
    assert_eq!(ACTION_B, current.get());
}

#[test]
fn events_are_built_as_named() {
    let e = Entity { id: 3 };
    assert_eq!(None, RunScoring::all().entity);
    assert_eq!(Some(e), RunScoring::entity(e).entity);
    assert_eq!(None, RunScoring::default().entity);
    assert_eq!(None, RunPicking::all().entity);
    assert_eq!(Some(e), RunPicking::entity(e).entity);
    assert_eq!(None, RunPicking::default().entity);
    assert_eq!(RequestAction { entity: e, action: None }, RequestAction::picked(e));
    assert_eq!(
        RequestAction { entity: e, action: Some(ACTION_A) },
        RequestAction::specific(e, ACTION_A)
    );
    assert_eq!(ActionEndReason::Completed, OnActionEnded::completed(e, ACTION_A).reason);
    assert_eq!(ActionEndReason::Cancelled, OnActionEnded::cancelled(e, ACTION_A).reason);
    assert_eq!(ACTION_A, OnActionEnded::cancelled(e, ACTION_A).action);
    assert_eq!(e, OnActionEnded::completed(e, ACTION_A).entity);
    assert_eq!(e, OnPick { entity: e }.entity);
}

fn two_agents(board: &mut Scoreboard) -> Agents {
    let mut agents = Agents::new();
    let s1 = Entity { id: 10 };
    let s2 = Entity { id: 11 };
    board.set_score(s1, Score::new(800_000));
    board.set_score(s2, Score::new(200_000));
    assert_eq!(
        0,
        agents.add(Agent {
            entity: Entity { id: 1 },
            picker: Picker::new(IDLE).with(s1, ACTION_A),
            strategy: Some(first_to_score(500_000)),
            current: Some(CurrentAction::new(IDLE)),
        })
    );
    assert_eq!(
        1,
        agents.add(Agent {
            entity: Entity { id: 2 },
            picker: Picker::new(IDLE).with(s2, ACTION_B),
            strategy: Some(Strategy::Highest(Highest)),
            current: None,
        })
    );
    assert_eq!(
        2,
        agents.add(Agent {
            entity: Entity { id: 3 },
            picker: Picker::new(IDLE).with(s1, ACTION_B),
            strategy: None,
            current: Some(CurrentAction::new(IDLE)),
        })
    );
    agents
}

#[test]
fn run_picking_asks_every_agent_or_one() {
    let mut board = Scoreboard::new();
    let mut agents = two_agents(&mut board);
    assert_eq!(Some(1), agents.find(Entity { id: 2 }));
    assert_eq!(None, agents.find(Entity { id: 9 }));

    let events = agents.run_picking(&board, RunPicking::entity(Entity { id: 2 }));
    assert_eq!(vec![OnPicked { entity: Entity { id: 2 }, action: ACTION_B }], events);
    assert_eq!(IDLE, agents.list[0].picker.picked());
    assert_eq!(ACTION_B, agents.list[1].picker.picked());

    let events = agents.run_picking(&board, RunPicking::all());
    assert_eq!(
        vec![
            OnPicked { entity: Entity { id: 1 }, action: ACTION_A },
            OnPicked { entity: Entity { id: 2 }, action: ACTION_B },
        ],
        events
    );
    // the agent without a strategy was passed over
    assert_eq!(IDLE, agents.list[2].picker.picked());
    assert!(agents.run_picking(&board, RunPicking::entity(Entity { id: 3 })).is_empty());
    assert!(agents.run_picking(&board, RunPicking::entity(Entity { id: 9 })).is_empty());
}

#[test]
fn requests_reach_the_agent_they_name() {
    let mut board = Scoreboard::new();
    let mut agents = two_agents(&mut board);
    agents.run_picking(&board, RunPicking::all());
    let one = Entity { id: 1 };

    let events = agents.request_action(RequestAction::picked(one));
    assert_eq!(vec![ended(one, IDLE, ActionEndReason::Cancelled), initiated(one, ACTION_A)], events);
    assert_eq!(Some(CurrentAction(ACTION_A)), agents.list[0].current);
    assert_eq!(Some(CurrentAction(IDLE)), agents.list[2].current);

    // no current action to switch, and no such agent
    assert!(agents.request_action(RequestAction::picked(Entity { id: 2 })).is_empty());
    assert_eq!(None, agents.list[1].current);
    assert!(agents.request_action(RequestAction::specific(Entity { id: 9 }, ACTION_A)).is_empty());

    agents.action_ended(OnActionEnded::cancelled(one, ACTION_A));
    assert_eq!(Some(CurrentAction(ACTION_A)), agents.list[0].current);
    agents.action_ended(OnActionEnded::completed(Entity { id: 9 }, ACTION_A));
    agents.action_ended(OnActionEnded::completed(Entity { id: 2 }, ACTION_A));
    assert_eq!(None, agents.list[1].current);
    agents.action_ended(OnActionEnded::completed(one, ACTION_A));
    assert_eq!(Some(CurrentAction(IDLE)), agents.list[0].current);
}

/// root - mid - leaf, and a lone entity beside them
fn chain() -> (Forest, Entity, Entity, Entity, Entity) {
    let mut f = Forest::new();
    let root = f.spawn();
    let mid = f.spawn_child(root).unwrap();
    let leaf = f.spawn_child(mid).unwrap();
    let lone = f.spawn();
    (f, root, mid, leaf, lone)
}

#[test]
fn ancestor_lookup_walks_up_to_the_nearest_holder() {
    let (f, root, mid, leaf, lone) = chain();
    let mut holders = EntitySet::new();
    holders.insert(root);
    let mut query = AncestorQuery::new();
    assert_eq!(Ok(root), query.get(&f, &holders, leaf));
    assert_eq!(Ok(root), query.get(&f, &holders, root));
    assert_eq!(Err(LookupError::NotFound(lone)), query.get(&f, &holders, lone));
    assert_eq!(
        Err(LookupError::NotFound(Entity { id: 40 })),
        query.get(&f, &holders, Entity { id: 40 })
    );
    holders.insert(mid);
    assert_eq!(Ok(mid), query.get(&f, &holders, mid));
    holders.remove(root);
    let mut fresh = AncestorQuery::new();
    assert_eq!(Err(LookupError::NotFound(root)), fresh.get(&f, &holders, root));
    assert_eq!(Ok(mid), fresh.get(&f, &holders, leaf));
}

#[test]
fn ancestor_lookup_trusts_its_cache_while_the_ancestor_holds() {
    let (f, root, mid, leaf, _) = chain();
    let mut holders = EntitySet::new();
    holders.insert(root);
    let mut query = AncestorQuery::new();
    assert_eq!(Ok(root), query.get(&f, &holders, leaf));
    // a nearer holder appears: the cached ancestor still holds, so it is returned
    holders.insert(mid);
    assert_eq!(Ok(root), query.get(&f, &holders, leaf));
    // an entity that was never looked up is walked
    assert_eq!(Ok(mid), query.get(&f, &holders, mid));
    // the cached ancestor lets go: the entry is stale, and the walk finds the nearer one
    holders.remove(root);
    assert_eq!(Ok(mid), query.get(&f, &holders, leaf));
    // now the cache says mid, even when root holds again
    holders.insert(root);
    assert_eq!(Ok(mid), query.get(&f, &holders, leaf));
}

#[test]
fn ancestor_lookup_drops_a_stale_entry_when_nothing_is_found() {
    let (f, root, mid, leaf, _) = chain();
    let mut holders = EntitySet::new();
    holders.insert(root);
    let mut query = AncestorQuery::new();
    assert_eq!(Ok(root), query.get(&f, &holders, leaf));
    holders.remove(root);
    assert_eq!(Err(LookupError::NotFound(root)), query.get(&f, &holders, leaf));
    // root and mid hold again: with the entry gone, the walk finds mid
    holders.insert(root);
    holders.insert(mid);
    assert_eq!(Ok(mid), query.get(&f, &holders, leaf));
}

#[test]
fn clearing_the_cache_forgets_every_ancestor() {
    let (f, root, mid, leaf, _) = chain();
    let mut holders = EntitySet::new();
    holders.insert(root);
    let mut query = AncestorQuery::new();
    assert_eq!(Ok(root), query.get(&f, &holders, leaf));
    assert_eq!(Ok(root), query.get(&f, &holders, mid));
    holders.insert(mid);
    query.clear_cache();
    assert_eq!(Ok(mid), query.get(&f, &holders, leaf));
    assert_eq!(Ok(mid), query.get(&f, &holders, mid));
}
