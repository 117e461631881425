use sbepis::combat::animate_hammer;
use sbepis::combat::attack;
use sbepis::combat::collide_hammer;
use sbepis::combat::deal_all_damage;
use sbepis::combat::CollisionEvent;
use sbepis::combat::DamageEvent;
use sbepis::combat::Hammer;
use sbepis::combat::HammerPivot;
use sbepis::combat::Healths;
use sbepis::combat::InAnimation;

fn swing() -> (HammerPivot, Hammer) {
    let mut pivot = HammerPivot { animation: None };
    attack(&mut pivot);
    let hammer = Hammer { damage: 6, pivot: 1, dealer: None };
    (pivot, hammer)
}

#[test]
fn attack_is_idempotent_while_a_swing_is_active() {
    let mut pivot = HammerPivot { animation: None };
    attack(&mut pivot);
    assert_eq!(pivot.animation, Some(InAnimation { time_millis: 0 }));
    pivot.animation = Some(InAnimation { time_millis: 250 });
    attack(&mut pivot);
    assert_eq!(pivot.animation, Some(InAnimation { time_millis: 250 }));
}

#[test]
fn swing_lifecycle_fires_each_transition_once() {
    let (mut pivot, mut hammer) = swing();
    let mut healths = Healths::new();
    healths.insert(10, 20);
    let mut events: Vec<DamageEvent> = Vec::new();

    // before the damage window opens
    animate_hammer(&mut pivot, &mut hammer, 100, -500, -100, 6, &mut events);
    assert!(hammer.dealer.is_none());
    assert!(events.is_empty());

    // the tick whose interval contains beat zero opens the window
    animate_hammer(&mut pivot, &mut hammer, 100, -100, 100, 6, &mut events);
    assert!(hammer.dealer.is_some());
    assert!(hammer.dealer.as_ref().unwrap().hit_entities.is_empty());

    // a recorded collision while the window is open
    let collisions = vec![CollisionEvent::Started(1, 10)];
    collide_hammer(&mut hammer, 1, &collisions, &healths);
    assert_eq!(hammer.dealer.as_ref().unwrap().hit_entities, vec![10]);

    // the window stays open until the closing threshold
    animate_hammer(&mut pivot, &mut hammer, 100, 100, 400, 6, &mut events);
    assert!(hammer.dealer.is_some());
    assert!(events.is_empty());

    // crossing the closing threshold flushes exactly the accumulated hits
    animate_hammer(&mut pivot, &mut hammer, 100, 400, 600, 6, &mut events);
    assert!(hammer.dealer.is_none());
    assert_eq!(events.len(), 1);
    assert_eq!(events[0].victim, 10);
    assert_eq!(events[0].damage, 6);

    // the swing survives until the end threshold, then terminates
    animate_hammer(&mut pivot, &mut hammer, 100, 600, 3400, 6, &mut events);
    assert!(pivot.animation.is_some());
    animate_hammer(&mut pivot, &mut hammer, 100, 3400, 3600, 6, &mut events);
    assert!(pivot.animation.is_none());
    assert_eq!(events.len(), 1);
}

#[test]
fn coarse_tick_still_triggers_every_transition() {
    let (mut pivot, mut hammer) = swing();
    let mut events: Vec<DamageEvent> = Vec::new();
    // one tick skips from before the window to past the swing's end
    animate_hammer(&mut pivot, &mut hammer, 4000, -100, 4000, 6, &mut events);
    assert!(hammer.dealer.is_none());
    assert!(pivot.animation.is_none());
    // the window opened and closed within the tick, so nothing was recorded
    assert!(events.is_empty());
}

#[test]
fn animation_clock_accumulates_deltas() {
    let (mut pivot, mut hammer) = swing();
    let mut events: Vec<DamageEvent> = Vec::new();
    animate_hammer(&mut pivot, &mut hammer, 16, -500, -400, 6, &mut events);
    animate_hammer(&mut pivot, &mut hammer, 16, -400, -300, 6, &mut events);
    assert_eq!(pivot.animation, Some(InAnimation { time_millis: 32 }));
}

#[test]
fn collisions_only_record_damageable_targets() {
    let mut healths = Healths::new();
    healths.insert(20, 5);
    healths.insert(30, 5);
    let mut hammer = Hammer { damage: 1, pivot: 1, dealer: Some(sbepis::combat::CanDealDamage { hit_entities: Vec::new() }) };
    let collisions = vec![
        CollisionEvent::Started(1, 20),  // recorded
        CollisionEvent::Started(1, 99),  // target has no health entry: skipped
        CollisionEvent::Started(30, 1),  // dealer on the right side: recorded
        CollisionEvent::Stopped(1, 20),  // contact ending records nothing
        CollisionEvent::Started(7, 20),  // some other pair: skipped
    ];
    collide_hammer(&mut hammer, 1, &collisions, &healths);
    assert_eq!(hammer.dealer.unwrap().hit_entities, vec![20, 30]);
}

#[test]
fn closed_window_records_nothing() {
    let healths = Healths::new();
    let mut hammer = Hammer { damage: 1, pivot: 1, dealer: None };
    let collisions = vec![CollisionEvent::Started(1, 20)];
    collide_hammer(&mut hammer, 1, &collisions, &healths);
    assert!(hammer.dealer.is_none());
}

#[test]
fn lethal_positive_damage_destroys_the_target() {
    let mut healths = Healths::new();
    healths.insert(1, 10);
    let events = vec![DamageEvent { victim: 1, damage: 10 }];
    let destroyed = deal_all_damage(&mut healths, &events);
    assert_eq!(destroyed, vec![1]);
    assert!(healths.get(1).is_none());
}

#[test]
fn overkill_damage_destroys_the_target() {
    let mut healths = Healths::new();
    healths.insert(1, 10);
    let events = vec![DamageEvent { victim: 1, damage: 25 }];
    let destroyed = deal_all_damage(&mut healths, &events);
    assert_eq!(destroyed, vec![1]);
}

#[test]
fn nonpositive_damage_never_destroys() {
    let mut healths = Healths::new();
    healths.insert(1, 10);
    let events = vec![
        DamageEvent { victim: 1, damage: 0 },
        DamageEvent { victim: 1, damage: -5 },
    ];
    let destroyed = deal_all_damage(&mut healths, &events);
    assert!(destroyed.is_empty());
    // zero leaves health alone, negative damage heals
    assert_eq!(healths.get(1), Some(15));
}

#[test]
fn sublethal_damage_subtracts_health() {
    let mut healths = Healths::new();
    healths.insert(1, 10);
    let events = vec![DamageEvent { victim: 1, damage: 4 }];
    let destroyed = deal_all_damage(&mut healths, &events);
    assert!(destroyed.is_empty());
    assert_eq!(healths.get(1), Some(6));
}

#[test]
fn events_after_a_destruction_skip_that_target_only() {
    let mut healths = Healths::new();
    healths.insert(1, 5);
    healths.insert(2, 10);
    let events = vec![
        DamageEvent { victim: 1, damage: 9 },   // destroys target 1
        DamageEvent { victim: 1, damage: 100 }, // target already gone: skipped
        DamageEvent { victim: 2, damage: 3 },   // other target still processed
    ];
    let destroyed = deal_all_damage(&mut healths, &events);
    assert_eq!(destroyed, vec![1]);
    assert_eq!(healths.get(2), Some(7));
}

#[test]
fn wasd_axes_compose_and_cancel() {
    assert_eq!(sbepis::util::compose_wasd_axes(false, false, false, false), (0, 0));
    assert_eq!(sbepis::util::compose_wasd_axes(true, false, false, false), (-1, 0));
    assert_eq!(sbepis::util::compose_wasd_axes(false, true, false, true), (1, 1));
    assert_eq!(sbepis::util::compose_wasd_axes(true, true, true, true), (0, 0));
}
