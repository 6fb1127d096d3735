use observed_utility::acting::{ActionEvent, CurrentAction};
use observed_utility::event::{
    ActionEndReason, ActionId, OnActionEnded, OnPick, OnPicked, OnScore, RequestAction,
    RunPicking, RunScoring,
};
use observed_utility::hierarchy::{Entity, Forest};
use observed_utility::picking::{FirstToScore, Highest, Picker, Strategy};
use observed_utility::score::Score;
use observed_utility::scoring::fixed::FixedScore;
use observed_utility::scoring::sum::Sum;
use observed_utility::scoring::{Scoreboard, Scorer};
use observed_utility::traversal::DFSPostTraversal;

/// Scores are written in millionths: 0.75 is 750_000.
fn fixed(board: &mut Scoreboard, e: Entity, millionths: i64) {
    board.set_score(e, Score::default());
    board.set_scorer(e, Scorer::Fixed(FixedScore::new(Score::new(millionths))));
}

/// Stands for the host: keeps the per-action state that the handlers attach and detach.
struct Host {
    active: Vec<(Entity, ActionId)>,
    initiated: Vec<(Entity, ActionId)>,
    ended: Vec<(Entity, ActionId, ActionEndReason)>,
}

impl Host {
    fn new() -> Self {
        Host { active: Vec::new(), initiated: Vec::new(), ended: Vec::new() }
    }

    fn has(&self, entity: Entity, action: ActionId) -> bool {
        self.active.contains(&(entity, action))
    }

    fn on_ended(&mut self, current: &mut CurrentAction, picker: &Picker, ev: OnActionEnded) {
        current.ended(picker, ev);
        self.ended.push((ev.entity, ev.action, ev.reason));
        self.active.retain(|held| *held != (ev.entity, ev.action));
    }

    fn request(&mut self, current: &mut CurrentAction, picker: &Picker, request: RequestAction) {
        for ev in current.request(picker, request) {
            match ev {
                ActionEvent::Ended(ended) => self.on_ended(current, picker, ended),
                ActionEvent::Initiated(started) => {
                    self.initiated.push((started.entity, started.action));
                    self.active.push((started.entity, started.action));
                }
            }
        }
    }
}

const MY_ACTION: ActionId = ActionId { id: 0 };
const IDLE_ACTION: ActionId = ActionId { id: 1 };
const TEST_ACTION: ActionId = ActionId { id: 2 };
const ACTION1: ActionId = ActionId { id: 3 };
const ACTION2: ActionId = ActionId { id: 4 };
const DRINK_ACTION: ActionId = ActionId { id: 5 };

#[test]
fn test_scoring_lifecycle() {
    let mut forest = Forest::new();
    let mut board = Scoreboard::new();
    let mut traversal = DFSPostTraversal::new();
    let scorer = forest.spawn();
    fixed(&mut board, scorer, 750_000);

    board.run_scoring(&forest, &mut traversal, RunScoring::entity(scorer));

    assert_eq!(Some(750_000), board.score(scorer).map(|s| s.get()));
}

#[test]
fn test_scoring_all_entities() {
    let mut forest = Forest::new();
    let mut board = Scoreboard::new();
    let mut traversal = DFSPostTraversal::new();
    let scorer1 = forest.spawn();
    let scorer2 = forest.spawn();
    let scorer3 = forest.spawn();
    fixed(&mut board, scorer1, 500_000);
    fixed(&mut board, scorer2, 800_000);
    fixed(&mut board, scorer3, 300_000);

    board.run_scoring(&forest, &mut traversal, RunScoring::all());

    assert_eq!(500_000, board.score(scorer1).unwrap().get());
    assert_eq!(800_000, board.score(scorer2).unwrap().get());
    assert_eq!(300_000, board.score(scorer3).unwrap().get());
}

#[test]
fn test_hierarchical_scoring() {
    let mut forest = Forest::new();
    let mut board = Scoreboard::new();
    let mut traversal = DFSPostTraversal::new();
    let parent = forest.spawn();
    board.set_score(parent, Score::default());
    board.set_scorer(parent, Scorer::Sum(Sum::default()));
    let a = forest.spawn_child(parent).unwrap();
    let b = forest.spawn_child(parent).unwrap();
    fixed(&mut board, a, 300_000);
    fixed(&mut board, b, 400_000);

    board.run_scoring(&forest, &mut traversal, RunScoring::entity(parent));

    assert_eq!(700_000, board.score(parent).unwrap().get());
}

#[test]
fn test_picking_first_to_score() {
    let mut forest = Forest::new();
    let mut board = Scoreboard::new();
    let actor = forest.spawn();
    let scorer = forest.spawn_child(actor).unwrap();
    board.set_score(scorer, Score::new(600_000));
    let mut picker = Picker::new(IDLE_ACTION).with(scorer, MY_ACTION);
    let strategy = Strategy::FirstToScore(FirstToScore::new(Score::new(500_000)));

    let run = RunPicking::entity(actor);
    picker.pick(OnPick { entity: run.entity.unwrap() }, &strategy, &board);

    assert_eq!(MY_ACTION, picker.picked());
}

#[test]
fn test_picking_highest() {
    let mut forest = Forest::new();
    let mut board = Scoreboard::new();
    let actor = forest.spawn();
    let scorer1 = forest.spawn_child(actor).unwrap();
    let scorer2 = forest.spawn_child(actor).unwrap();
    board.set_score(scorer1, Score::new(300_000));
    board.set_score(scorer2, Score::new(800_000));
    let mut picker = Picker::new(IDLE_ACTION).with(scorer1, ACTION1).with(scorer2, ACTION2);

    let run = RunPicking::entity(actor);
    picker.pick(OnPick { entity: run.entity.unwrap() }, &Strategy::Highest(Highest), &board);

    assert_eq!(ACTION2, picker.picked());
}

#[test]
fn test_action_lifecycle() {
    let mut forest = Forest::new();
    let actor = forest.spawn();
    let picker = Picker::new(IDLE_ACTION);
    let mut current = CurrentAction::new(IDLE_ACTION);
    let mut host = Host::new();

    host.request(&mut current, &picker, RequestAction::specific(actor, TEST_ACTION));

    assert!(host.has(actor, TEST_ACTION), "TestAction component should be inserted on actor");
    assert_eq!(
        TEST_ACTION,
        current.get(),
        "CurrentAction should be updated to the requested action"
    );

    host.on_ended(&mut current, &picker, OnActionEnded::completed(actor, TEST_ACTION));

    assert!(
        !host.has(actor, TEST_ACTION),
        "TestAction component should be removed after completion"
    );
}

#[test]
fn test_action_cancellation() {
    let mut forest = Forest::new();
    let actor = forest.spawn();
    let picker = Picker::new(IDLE_ACTION);
    let mut current = CurrentAction::new(IDLE_ACTION);
    let mut host = Host::new();

    host.request(&mut current, &picker, RequestAction::specific(actor, ACTION1));

    assert!(host.has(actor, ACTION1), "Action1 should be active");
    assert_eq!(ACTION1, current.get());

    host.request(&mut current, &picker, RequestAction::specific(actor, ACTION2));

    assert!(!host.has(actor, ACTION1), "Action1 should be removed/cancelled");
    assert!(host.has(actor, ACTION2), "Action2 should now be active");
    assert_eq!(ACTION2, current.get(), "CurrentAction should be updated to action2");
}

#[test]
fn test_complete_utility_ai_lifecycle() {
    let mut forest = Forest::new();
    let mut board = Scoreboard::new();
    let mut traversal = DFSPostTraversal::new();
    let actor = forest.spawn();
    let thirst_scorer = forest.spawn_child(actor).unwrap();
    board.set_score(thirst_scorer, Score::new(800_000));
    let mut picker = Picker::new(IDLE_ACTION).with(thirst_scorer, DRINK_ACTION);
    let strategy = Strategy::FirstToScore(FirstToScore::new(Score::new(500_000)));
    let mut current = CurrentAction::new(IDLE_ACTION);
    let mut host = Host::new();

    board.run_scoring(&forest, &mut traversal, RunScoring::entity(thirst_scorer));
    assert_eq!(800_000, board.score(thirst_scorer).unwrap().get());

    picker.pick(OnPick { entity: actor }, &strategy, &board);
    assert_eq!(DRINK_ACTION, picker.picked());

    host.request(&mut current, &picker, RequestAction::picked(actor));
    assert!(host.has(actor, DRINK_ACTION), "DrinkAction should be active");
    assert_eq!(DRINK_ACTION, current.get());
}

#[test]
fn test_on_score_event_contains_entity() {
    let mut forest = Forest::new();
    let mut board = Scoreboard::new();
    let mut traversal = DFSPostTraversal::new();
    let scorer = forest.spawn();
    fixed(&mut board, scorer, 500_000);

    // The notifications of a pass are the entities of the traversal, in order.
    let scored: Vec<OnScore> = traversal
        .collect(&forest, scorer)
        .into_iter()
        .map(|entity| OnScore { entity })
        .collect();
    for ev in &scored {
        board.score_entity(&forest, *ev);
    }

    assert!(
        scored.iter().any(|ev| ev.entity == scorer),
        "OnScore event should have been triggered with the scorer entity"
    );
}

#[test]
fn test_on_picked_event_contains_entity_and_action() {
    let mut forest = Forest::new();
    let mut board = Scoreboard::new();
    let actor = forest.spawn();
    let scorer = forest.spawn_child(actor).unwrap();
    board.set_score(scorer, Score::new(800_000));
    let mut picker = Picker::new(IDLE_ACTION).with(scorer, MY_ACTION);
    let strategy = Strategy::FirstToScore(FirstToScore::new(Score::new(500_000)));

    let picked: Vec<OnPicked> = vec![picker.pick(OnPick { entity: actor }, &strategy, &board)];

    assert_eq!(1, picked.len(), "Should have one picked action");
    assert_eq!(actor, picked[0].entity, "Entity should match the actor");
    assert_eq!(MY_ACTION, picked[0].action, "Action should be my_action");
}

#[test]
fn test_on_action_initiated_event() {
    let mut forest = Forest::new();
    let actor = forest.spawn();
    let picker = Picker::new(IDLE_ACTION);
    let mut current = CurrentAction::new(IDLE_ACTION);
    let mut host = Host::new();

    host.request(&mut current, &picker, RequestAction::specific(actor, MY_ACTION));

    assert_eq!(1, host.initiated.len(), "Should have one initiated action");
    assert_eq!(actor, host.initiated[0].0, "Entity should match the actor");
    assert_eq!(MY_ACTION, host.initiated[0].1, "Action should be my_action");
}

#[test]
fn test_on_action_ended_event() {
    let mut forest = Forest::new();
    let actor = forest.spawn();
    let picker = Picker::new(IDLE_ACTION);
    let mut current = CurrentAction::new(IDLE_ACTION);
    let mut host = Host::new();

    host.request(&mut current, &picker, RequestAction::specific(actor, TEST_ACTION));
    host.on_ended(&mut current, &picker, OnActionEnded::completed(actor, TEST_ACTION));

    let my_action_completed: Vec<_> = host
        .ended
        .iter()
        .filter(|(_, a, r)| *a == TEST_ACTION && *r == ActionEndReason::Completed)
        .collect();

    assert!(
        !my_action_completed.is_empty(),
        "Should have at least one completed my_action event"
    );
    assert_eq!(actor, my_action_completed[0].0, "Entity should match the actor");
    assert_eq!(TEST_ACTION, my_action_completed[0].1, "Action should be my_action");
    assert_eq!(
        ActionEndReason::Completed,
        my_action_completed[0].2,
        "Reason should be Completed"
    );
}

#[test]
fn test_on_action_cancelled_event() {
    let mut forest = Forest::new();
    let actor = forest.spawn();
    let picker = Picker::new(IDLE_ACTION);
    let mut current = CurrentAction::new(IDLE_ACTION);
    let mut host = Host::new();

    host.request(&mut current, &picker, RequestAction::specific(actor, ACTION1));
    host.request(&mut current, &picker, RequestAction::specific(actor, ACTION2));

    assert!(
        host.ended
            .iter()
            .any(|(e, a, r)| *e == actor && *a == ACTION1 && *r == ActionEndReason::Cancelled),
        "Action1 should have been cancelled"
    );
}

#[test]
fn test_realtime_lifecycle() {
    let mut forest = Forest::new();
    let mut board = Scoreboard::new();
    let mut traversal = DFSPostTraversal::new();
    let actor = forest.spawn();
    let thirst_scorer = forest.spawn_child(actor).unwrap();
    fixed(&mut board, thirst_scorer, 900_000);
    let mut picker = Picker::new(IDLE_ACTION).with(thirst_scorer, DRINK_ACTION);
    let strategy = Strategy::FirstToScore(FirstToScore::new(Score::new(500_000)));
    let mut current = CurrentAction::new(IDLE_ACTION);
    let mut host = Host::new();

    board.run_scoring(&forest, &mut traversal, RunScoring::all());
    picker.pick(OnPick { entity: actor }, &strategy, &board);

    assert_eq!(900_000, board.score(thirst_scorer).unwrap().get());
    assert_eq!(
        DRINK_ACTION,
        picker.picked(),
        "Picker should have picked drink_action (score=0.9 > threshold=0.5)"
    );

    host.request(&mut current, &picker, RequestAction::picked(actor));

    assert_eq!(DRINK_ACTION, current.get(), "Actor should have switched to drinking action");
    assert!(host.has(actor, DRINK_ACTION), "DrinkAction should be active");
}

#[test]
fn test_multiple_actors() {
    let mut forest = Forest::new();
    let mut board = Scoreboard::new();
    let mut traversal = DFSPostTraversal::new();
    let strategy = Strategy::FirstToScore(FirstToScore::new(Score::new(500_000)));
    let mut host = Host::new();

    let actor1 = forest.spawn();
    let scorer1 = forest.spawn_child(actor1).unwrap();
    board.set_score(scorer1, Score::new(800_000));
    let mut picker1 = Picker::new(IDLE_ACTION).with(scorer1, ACTION1);
    let mut current1 = CurrentAction::new(IDLE_ACTION);

    let actor2 = forest.spawn();
    let scorer2 = forest.spawn_child(actor2).unwrap();
    board.set_score(scorer2, Score::new(200_000));
    let mut picker2 = Picker::new(IDLE_ACTION).with(scorer2, ACTION2);
    let mut current2 = CurrentAction::new(IDLE_ACTION);

    board.run_scoring(&forest, &mut traversal, RunScoring::all());
    picker1.pick(OnPick { entity: actor1 }, &strategy, &board);
    picker2.pick(OnPick { entity: actor2 }, &strategy, &board);

    host.request(&mut current1, &picker1, RequestAction::picked(actor1));
    host.request(&mut current2, &picker2, RequestAction::picked(actor2));

    assert_eq!(ACTION1, current1.get());
    assert!(host.has(actor1, ACTION1));

    assert_eq!(IDLE_ACTION, current2.get());
    assert!(!host.has(actor2, ACTION2));
}
