//! Rhythm-gated melee combat: the per-swing animation state machine driven by
//! beat-relative time, hit recording while the damage window is open, and
//! damage resolution against a health arena.
//!
//! Beat positions are measured in thousandths of a beat ("milli-beats"), so
//! that the fixed thresholds of the swing cycle are exact integers. The
//! beat-mapping function itself (wall-clock time to beat position) belongs to
//! the external music subsystem; each tick hands the previous and current
//! beat position in.

use vstd::prelude::*;

use crate::assoc::alookup;
use crate::assoc::keys_unique;
use crate::assoc::lemma_alookup_absent;
use crate::assoc::lemma_alookup_index;
use crate::assoc::lemma_alookup_push;
use crate::assoc::lemma_alookup_remove;
use crate::assoc::lemma_alookup_update;
use crate::assoc::lemma_keys_unique_remove;
use crate::assoc::lemma_keys_unique_update;

verus! {

/// Beat position (in milli-beats) at which a swing becomes able to deal
/// damage.
pub const DAMAGE_START_BEAT: i64 = 0;

/// Beat position (in milli-beats) at which the damage window closes and the
/// accumulated hits are flushed into damage events.
pub const DAMAGE_END_BEAT: i64 = 500;

/// Beat position (in milli-beats) at which the swing terminates and its
/// animation state is removed.
pub const SWING_END_BEAT: i64 = 3500;

/// A tick whose beat interval is `[prev_beat, beat)` triggers the transition
/// at `threshold` exactly when the interval contains it.
pub open spec fn crosses(prev_beat: int, beat: int, threshold: int) -> bool {
    prev_beat <= threshold < beat
}

/// Accumulated animation clock of one active swing, in milliseconds.
#[derive(Clone, Copy, PartialEq, Eq, Structural, Debug)]
pub struct InAnimation {
    pub time_millis: u64,
}

/// The weapon pivot: it carries animation state exactly while a swing is in
/// flight.
pub struct HammerPivot {
    pub animation: Option<InAnimation>,
}

/// Hit list of a swing whose damage window is open, append-only while the
/// window lasts.
pub struct CanDealDamage {
    pub hit_entities: Vec<u64>,
}

/// The weapon head: its base damage, the pivot it swings around, and the
/// damage-window state.
pub struct Hammer {
    pub damage: i64,
    pub pivot: u64,
    pub dealer: Option<CanDealDamage>,
}

/// One damage event: produced once per recorded hit when the damage window
/// closes, consumed once by damage resolution.
#[derive(Clone, Copy, PartialEq, Eq, Structural, Debug)]
pub struct DamageEvent {
    pub victim: u64,
    pub damage: i64,
}

/// A collision report from the external physics layer: the two entities and
/// whether contact started or stopped.
#[derive(Clone, Copy, PartialEq, Eq, Structural, Debug)]
pub enum CollisionEvent {
    Started(u64, u64),
    Stopped(u64, u64),
}

/// Begins a swing: attaches animation state to the pivot unless one is
/// already in flight, in which case the trigger is a no-op.
pub fn attack(pivot: &mut HammerPivot)
    ensures
        old(pivot).animation is Some ==> final(pivot).animation == old(pivot).animation,
        old(pivot).animation is None ==> final(pivot).animation == Some(
            InAnimation { time_millis: 0u64 },
        ),
{
    if pivot.animation.is_none() {
        pivot.animation = Some(InAnimation { time_millis: 0 });
    }
}

/// The hit list carried by a damage-window state, empty when the window is
/// closed.
pub open spec fn dealer_hits(d: Option<CanDealDamage>) -> Seq<u64> {
    match d {
        Some(c) => c.hit_entities@,
        None => Seq::empty(),
    }
}

/// The damage events flushed for a hit list, one per hit, all carrying the
/// same (already modified) damage value.
pub open spec fn damage_events_for(hits: Seq<u64>, damage: i64) -> Seq<DamageEvent> {
    hits.map_values(|victim: u64| DamageEvent { victim, damage })
}

fn crosses_now(prev_beat: i64, beat: i64, threshold: i64) -> (r: bool)
    ensures
        r == crosses(prev_beat as int, beat as int, threshold as int),
{
    prev_beat <= threshold && threshold < beat
}

/// One tick of an active swing. The caller advances the music mapping and
/// hands in the beat positions of the old and the new accumulated time (the
/// mapping is monotone over one swing, so `prev_beat <= beat`), together with
/// the damage value for this beat, already scaled by the external music
/// subsystem's damage hook.
///
/// The tick interval `[prev_beat, beat)` drives the transitions: when it
/// contains [`DAMAGE_START_BEAT`] the damage window opens with an empty hit
/// list; when it contains [`DAMAGE_END_BEAT`] the pending hits are flushed,
/// one damage event each, and the window closes; when it contains
/// [`SWING_END_BEAT`] the animation state is removed. Coarse ticks that skip
/// over a threshold in one step still trigger the transition.
#[verifier::loop_isolation(false)]
pub fn animate_hammer(
    pivot: &mut HammerPivot,
    hammer: &mut Hammer,
    delta_millis: u64,
    prev_beat: i64,
    beat: i64,
    modified_damage: i64,
    events: &mut Vec<DamageEvent>,
)
    requires
        old(pivot).animation is Some,
        old(pivot).animation->Some_0.time_millis + delta_millis <= u64::MAX,
        prev_beat <= beat,
    ensures
        ({
            let opened = crosses(prev_beat as int, beat as int, DAMAGE_START_BEAT as int);
            let closed = crosses(prev_beat as int, beat as int, DAMAGE_END_BEAT as int);
            let ended = crosses(prev_beat as int, beat as int, SWING_END_BEAT as int);
            let pending = if opened {
                Seq::<u64>::empty()
            } else {
                dealer_hits(old(hammer).dealer)
            };
            &&& final(hammer).damage == old(hammer).damage
            &&& final(hammer).pivot == old(hammer).pivot
            &&& (closed ==> final(hammer).dealer is None)
            &&& (!closed && opened ==> final(hammer).dealer is Some && dealer_hits(
                final(hammer).dealer,
            ) == Seq::<u64>::empty())
            &&& (!closed && !opened ==> final(hammer).dealer == old(hammer).dealer)
            &&& final(events)@ == old(events)@ + (if closed {
                damage_events_for(pending, modified_damage)
            } else {
                Seq::<DamageEvent>::empty()
            })
            &&& (ended ==> final(pivot).animation is None)
            &&& (!ended ==> final(pivot).animation == Some(
                InAnimation {
                    time_millis: (old(pivot).animation->Some_0.time_millis + delta_millis) as u64,
                },
            ))
        }),
{
    let time0: u64 = match &pivot.animation {
        Some(a) => a.time_millis,
        None => {
            proof {
                assert(false);
            }
            0
        },
    };
    let new_time = time0 + delta_millis;

    if crosses_now(prev_beat, beat, DAMAGE_START_BEAT) {
        hammer.dealer = Some(CanDealDamage { hit_entities: Vec::new() });
    }
    if crosses_now(prev_beat, beat, DAMAGE_END_BEAT) {
        let dealer = hammer.dealer.take();
        match dealer {
            Some(c) => {
                let ghost pending = c.hit_entities@;
                let n = c.hit_entities.len();
                let mut i: usize = 0;
                while i < n
                    invariant
                        i <= n,
                        n == pending.len(),
                        c.hit_entities@ == pending,
                        events@ == old(events)@ + damage_events_for(
                            pending.take(i as int),
                            modified_damage,
                        ),
                    decreases n - i,
                {
                    let victim = c.hit_entities[i];
                    events.push(DamageEvent { victim, damage: modified_damage });
                    proof {
                        assert(damage_events_for(pending.take(i as int + 1), modified_damage)
                            =~= damage_events_for(pending.take(i as int), modified_damage).push(
                            DamageEvent { victim, damage: modified_damage },
                        ));
                    }
                    i += 1;
                }
                proof {
                    assert(pending.take(n as int) =~= pending);
                }
            },
            None => {
                proof {
                    assert(events@ =~= old(events)@ + damage_events_for(
                        Seq::<u64>::empty(),
                        modified_damage,
                    ));
                }
            },
        }
    } else {
        proof {
            assert(events@ =~= old(events)@ + Seq::<DamageEvent>::empty());
        }
    }
    if crosses_now(prev_beat, beat, SWING_END_BEAT) {
        pivot.animation = None;
    } else {
        pivot.animation = Some(InAnimation { time_millis: new_time });
    }
}

/// What a damage-capable swing records out of one collision report: each
/// contact that starts between the dealer and an entity carrying a health
/// value, skipping pairings that lack one (physics data inconsistencies are
/// ignored locally).
pub open spec fn event_hits(e: CollisionEvent, dealer: u64, healths: Map<u64, i64>) -> Seq<u64> {
    match e {
        CollisionEvent::Started(a, b) => (if a == dealer && healths.contains_key(b) {
            seq![b]
        } else {
            Seq::empty()
        }) + (if b == dealer && healths.contains_key(a) {
            seq![a]
        } else {
            Seq::empty()
        }),
        CollisionEvent::Stopped(_, _) => Seq::empty(),
    }
}

/// All hits recorded out of a stream of collision reports, in order.
pub open spec fn recorded_hits(
    events: Seq<CollisionEvent>,
    dealer: u64,
    healths: Map<u64, i64>,
) -> Seq<u64>
    decreases events.len(),
{
    if events.len() == 0 {
        Seq::empty()
    } else {
        recorded_hits(events.drop_last(), dealer, healths) + event_hits(
            events.last(),
            dealer,
            healths,
        )
    }
}

/// Appends to the hammer's hit list every hit its damage window records out
/// of this tick's collision reports; a hammer whose window is closed records
/// nothing.
#[verifier::loop_isolation(false)]
pub fn collide_hammer(
    hammer: &mut Hammer,
    hammer_entity: u64,
    collisions: &Vec<CollisionEvent>,
    healths: &Healths,
)
    requires
        healths.wf(),
    ensures
        final(hammer).damage == old(hammer).damage,
        final(hammer).pivot == old(hammer).pivot,
        old(hammer).dealer is None ==> final(hammer).dealer is None,
        old(hammer).dealer is Some ==> final(hammer).dealer is Some && dealer_hits(
            final(hammer).dealer,
        ) == dealer_hits(old(hammer).dealer) + recorded_hits(
            collisions@,
            hammer_entity,
            healths.as_map(),
        ),
{
    let dealer = hammer.dealer.take();
    match dealer {
        None => {},
        Some(mut c) => {
            let ghost hits0 = c.hit_entities@;
            let n = collisions.len();
            let mut i: usize = 0;
            while i < n
                invariant
                    i <= n,
                    n == collisions@.len(),
                    c.hit_entities@ == hits0 + recorded_hits(
                        collisions@.take(i as int),
                        hammer_entity,
                        healths.as_map(),
                    ),
                decreases n - i,
            {
                let ghost before = c.hit_entities@;
                match collisions[i] {
                    CollisionEvent::Started(a, b) => {
                        if a == hammer_entity && healths.get(b).is_some() {
                            c.hit_entities.push(b);
                        }
                        if b == hammer_entity && healths.get(a).is_some() {
                            c.hit_entities.push(a);
                        }
                    },
                    CollisionEvent::Stopped(_, _) => {},
                }
                proof {
                    assert(collisions@.take(i as int + 1).drop_last() =~= collisions@.take(
                        i as int,
                    ));
                    assert(collisions@.take(i as int + 1).last() == collisions@[i as int]);
                    assert(c.hit_entities@ =~= before + event_hits(
                        collisions@[i as int],
                        hammer_entity,
                        healths.as_map(),
                    ));
                    assert(c.hit_entities@ =~= hits0 + recorded_hits(
                        collisions@.take(i as int + 1),
                        hammer_entity,
                        healths.as_map(),
                    ));
                }
                i += 1;
            }
            proof {
                assert(collisions@.take(n as int) =~= collisions@);
            }
            hammer.dealer = Some(c);
        },
    }
}

/// The health arena: each damageable entity's handle mapped to its health
/// value.
pub struct Healths {
    entries: Vec<(u64, i64)>,
}

impl Healths {
    /// The arena's invariant: no two entries share an entity handle.
    pub closed spec fn wf(self) -> bool {
        keys_unique(self.entries@)
    }

    /// The health stored for an entity, if it is alive in the arena.
    pub closed spec fn spec_health(self, entity: u64) -> Option<i64> {
        alookup(self.entries@, entity)
    }

    /// The arena as a map from live entity to health value.
    pub open spec fn as_map(self) -> Map<u64, i64> {
        Map::new(|e: u64| self.spec_health(e) is Some, |e: u64| self.spec_health(e)->Some_0)
    }

    pub fn new() -> (r: Healths)
        ensures
            r.wf(),
            r.as_map() == Map::<u64, i64>::empty(),
    {
        let r = Healths { entries: Vec::new() };
        proof {
            assert(r.as_map() =~= Map::<u64, i64>::empty());
        }
        r
    }

    /// Stores a health value for an entity, replacing any value already
    /// stored for it.
    #[verifier::loop_isolation(false)]
    pub fn insert(&mut self, entity: u64, health: i64)
        requires
            old(self).wf(),
        ensures
            final(self).wf(),
            final(self).as_map() == old(self).as_map().insert(entity, health),
    {
        let n = self.entries.len();
        let mut i: usize = 0;
        while i < n
            invariant
                n == self.entries@.len(),
                i <= n,
                keys_unique(self.entries@),
                *self == *old(self),
                forall|j: int| 0 <= j < i ==> self.entries@[j].0 != entity,
            decreases n - i,
        {
            if self.entries[i].0 == entity {
                let ghost s = self.entries@;
                self.entries[i] = (entity, health);
                proof {
                    assert(self.entries@ == s.update(i as int, (s[i as int].0, health)));
                    lemma_keys_unique_update(s, i as int, health);
                    assert forall|k: u64| true implies alookup(self.entries@, k) == (if k == entity {
                        Some(health)
                    } else {
                        alookup(s, k)
                    }) by {
                        lemma_alookup_update(s, i as int, health, k);
                    }
                    assert(self.as_map() =~= old(self).as_map().insert(entity, health));
                }
                return ;
            }
            i += 1;
        }
        let ghost s = self.entries@;
        self.entries.push((entity, health));
        proof {
            assert forall|p: int, q: int|
                0 <= p < q < self.entries@.len() implies self.entries@[p].0
                != self.entries@[q].0 by {
                if q < s.len() {
                    assert(self.entries@[p] == s[p]);
                    assert(self.entries@[q] == s[q]);
                } else {
                    assert(self.entries@[p] == s[p]);
                    assert(self.entries@[q].0 == entity);
                }
            }
            assert forall|k: u64| true implies alookup(self.entries@, k) == (if k == entity {
                Some(health)
            } else {
                alookup(s, k)
            }) by {
                lemma_alookup_push(s, (entity, health), k);
            }
            assert(self.as_map() =~= old(self).as_map().insert(entity, health));
        }
    }

    /// The health of an entity, if it is alive in the arena.
    #[verifier::loop_isolation(false)]
    pub fn get(&self, entity: u64) -> (r: Option<i64>)
        requires
            self.wf(),
        ensures
            r == self.spec_health(entity),
            r is Some <==> self.as_map().contains_key(entity),
            r is Some ==> r->Some_0 == self.as_map()[entity],
    {
        let n = self.entries.len();
        let mut i: usize = 0;
        while i < n
            invariant
                n == self.entries@.len(),
                i <= n,
                keys_unique(self.entries@),
                forall|j: int| 0 <= j < i ==> self.entries@[j].0 != entity,
            decreases n - i,
        {
            if self.entries[i].0 == entity {
                proof {
                    lemma_alookup_index(self.entries@, i as int);
                }
                return Some(self.entries[i].1);
            }
            i += 1;
        }
        proof {
            lemma_alookup_absent(self.entries@, entity);
        }
        None
    }

    /// Removes an entity from the arena (it was destroyed).
    #[verifier::loop_isolation(false)]
    pub fn remove(&mut self, entity: u64)
        requires
            old(self).wf(),
        ensures
            final(self).wf(),
            final(self).as_map() == old(self).as_map().remove(entity),
    {
        let n = self.entries.len();
        let mut i: usize = 0;
        while i < n
            invariant
                n == self.entries@.len(),
                i <= n,
                keys_unique(self.entries@),
                *self == *old(self),
                forall|j: int| 0 <= j < i ==> self.entries@[j].0 != entity,
            decreases n - i,
        {
            if self.entries[i].0 == entity {
                let ghost s = self.entries@;
                proof {
                    lemma_keys_unique_remove(s, i as int);
                    assert forall|k: u64| true implies alookup(s.remove(i as int), k) == (if k
                        == entity {
                        None::<i64>
                    } else {
                        alookup(s, k)
                    }) by {
                        lemma_alookup_remove(s, i as int, k);
                    }
                }
                self.entries.remove(i);
                proof {
                    assert(self.as_map() =~= old(self).as_map().remove(entity));
                }
                return ;
            }
            i += 1;
        }
        proof {
            lemma_alookup_absent(self.entries@, entity);
            assert(self.as_map() =~= old(self).as_map().remove(entity));
        }
    }
}

/// The difference `a - b`, saturated at the ends of the `i64` range.
pub open spec fn sat_sub(a: int, b: int) -> i64 {
    if a - b < i64::MIN {
        i64::MIN
    } else if a - b > i64::MAX {
        i64::MAX
    } else {
        (a - b) as i64
    }
}

fn sat_sub_now(a: i64, b: i64) -> (r: i64)
    ensures
        r == sat_sub(a as int, b as int),
{
    if b >= 0 {
        if a < i64::MIN + b {
            i64::MIN
        } else {
            a - b
        }
    } else {
        if a > i64::MAX + b {
            i64::MAX
        } else {
            a - b
        }
    }
}

/// How one damage event changes the health arena: an event against an entity
/// no longer alive is skipped; a positive-damage event that brings health to
/// or below zero destroys the target (second component `true`); any other
/// event merely subtracts its damage from the target's health.
pub open spec fn resolve_step(h: Map<u64, i64>, e: DamageEvent) -> (Map<u64, i64>, bool) {
    if !h.contains_key(e.victim) {
        (h, false)
    } else if e.damage > 0 && h[e.victim] <= e.damage {
        (h.remove(e.victim), true)
    } else {
        (h.insert(e.victim, sat_sub(h[e.victim] as int, e.damage as int)), false)
    }
}

/// Resolving a batch of damage events in order: the final health arena and
/// the entities destroyed, in the order they were destroyed. Once an entity
/// is destroyed, later events against it in the same batch are skipped, while
/// events against other targets still apply.
pub open spec fn resolve_all(h: Map<u64, i64>, events: Seq<DamageEvent>) -> (Map<u64, i64>, Seq<
    u64,
>)
    decreases events.len(),
{
    if events.len() == 0 {
        (h, Seq::empty())
    } else {
        let step = resolve_step(h, events[0]);
        let rest = resolve_all(step.0, events.skip(1));
        (rest.0, (if step.1 {
            seq![events[0].victim]
        } else {
            Seq::<u64>::empty()
        }) + rest.1)
    }
}

proof fn lemma_resolve_all_concat(h: Map<u64, i64>, a: Seq<DamageEvent>, b: Seq<DamageEvent>)
    ensures
        resolve_all(h, a + b) == ({
            let ra = resolve_all(h, a);
            let rb = resolve_all(ra.0, b);
            (rb.0, ra.1 + rb.1)
        }),
    decreases a.len(),
{
    if a.len() == 0 {
        assert(a + b =~= b);
        assert(resolve_all(h, a).1 + resolve_all(h, b).1 =~= resolve_all(h, b).1);
    } else {
        assert((a + b)[0] == a[0]);
        assert((a + b).skip(1) =~= a.skip(1) + b);
        let step = resolve_step(h, a[0]);
        lemma_resolve_all_concat(step.0, a.skip(1), b);
        let ra = resolve_all(h, a);
        let rb = resolve_all(ra.0, b);
        assert(resolve_all(h, a + b).1 =~= ra.1 + rb.1);
    }
}

/// Consumes a batch of damage events against the health arena, per
/// [`resolve_all`]: subtracts each event's damage from its target's health,
/// destroys a target brought to or below zero health by positive damage
/// (returning the destroyed entities for the engine to despawn, in order),
/// and skips events against targets destroyed earlier in the batch.
#[verifier::loop_isolation(false)]
pub fn deal_all_damage(healths: &mut Healths, events: &Vec<DamageEvent>) -> (destroyed: Vec<u64>)
    requires
        old(healths).wf(),
    ensures
        final(healths).wf(),
        (final(healths).as_map(), destroyed@) == resolve_all(old(healths).as_map(), events@),
{
    let mut destroyed: Vec<u64> = Vec::new();
    let n = events.len();
    let mut i: usize = 0;
    while i < n
        invariant
            i <= n,
            n == events@.len(),
            healths.wf(),
            (healths.as_map(), destroyed@) == resolve_all(old(healths).as_map(), events@.take(
                i as int,
            )),
        decreases n - i,
    {
        let e = events[i];
        let ghost pre = healths.as_map();
        let ghost destroyed_pre = destroyed@;
        match healths.get(e.victim) {
            None => {},
            Some(h) => {
                if e.damage > 0 && h <= e.damage {
                    healths.remove(e.victim);
                    destroyed.push(e.victim);
                } else {
                    let nh = sat_sub_now(h, e.damage);
                    healths.insert(e.victim, nh);
                }
            },
        }
        proof {
            let step = resolve_step(pre, e);
            assert(healths.as_map() == step.0 && destroyed@ == destroyed_pre + (if step.1 {
                seq![e.victim]
            } else {
                Seq::<u64>::empty()
            })) by {
                if pre.contains_key(e.victim) {
                    if !(e.damage > 0 && pre[e.victim] <= e.damage) {
                        assert(destroyed@ =~= destroyed_pre + Seq::<u64>::empty());
                    }
                } else {
                    assert(destroyed@ =~= destroyed_pre + Seq::<u64>::empty());
                }
            }
            assert(events@.take(i as int + 1) =~= events@.take(i as int) + seq![e]);
            lemma_resolve_all_concat(old(healths).as_map(), events@.take(i as int), seq![e]);
            assert(seq![e][0] == e);
            assert(seq![e].skip(1) =~= Seq::<DamageEvent>::empty());
            assert(resolve_all(step.0, Seq::<DamageEvent>::empty()) == (
                step.0,
                Seq::<u64>::empty(),
            ));
            assert(resolve_all(pre, seq![e]).0 == step.0);
            assert(resolve_all(pre, seq![e]).1 =~= (if step.1 {
                seq![e.victim]
            } else {
                Seq::<u64>::empty()
            }));
            assert(destroyed@ =~= resolve_all(old(healths).as_map(), events@.take(i as int + 1)).1);
        }
        i += 1;
    }
    proof {
        assert(events@.take(n as int) =~= events@);
    }
    destroyed
}

/// Law: a damage event against a live target destroys it exactly when the
/// damage is positive and at least the target's current health, and an event
/// whose damage is zero or negative never destroys, whatever health results.
pub proof fn lemma_damage_resolution(h: Map<u64, i64>, e: DamageEvent)
    requires
        h.contains_key(e.victim),
    ensures
        resolve_step(h, e).1 <==> (e.damage > 0 && h[e.victim] <= e.damage),
        e.damage <= 0 ==> !resolve_step(h, e).1 && resolve_step(h, e).0.contains_key(e.victim),
{
}

/// Tick `i` of a run of per-tick beat positions crosses `threshold`: the
/// tick's beat interval `[beats[i], beats[i + 1])` contains it.
pub open spec fn crossing_tick(beats: Seq<int>, i: int, threshold: int) -> bool {
    0 <= i < beats.len() - 1 && crosses(beats[i], beats[i + 1], threshold)
}

/// Law: over a monotone run of per-tick beat positions, any threshold that
/// the run spans is crossed by exactly one tick interval.
pub proof fn lemma_threshold_crossed_once(beats: Seq<int>, t: int)
    requires
        beats.len() >= 2,
        forall|i: int, j: int| 0 <= i <= j < beats.len() ==> beats[i] <= beats[j],
        beats.first() <= t,
        t < beats.last(),
    ensures
        exists|i: int| crossing_tick(beats, i, t),
        forall|i: int, j: int|
            #[trigger] crossing_tick(beats, i, t) && #[trigger] crossing_tick(beats, j, t) ==> i
                == j,
    decreases beats.len(),
{
    if beats[1] > t {
        assert(crossing_tick(beats, 0, t));
    } else {
        let tail = beats.skip(1);
        assert(forall|i: int, j: int|
            0 <= i <= j < tail.len() ==> tail[i] == beats[i + 1] && tail[j] == beats[j + 1]);
        assert(tail.first() <= t);
        assert(t < tail.last());
        lemma_threshold_crossed_once(tail, t);
        let w = choose|i: int| crossing_tick(tail, i, t);
        assert(crossing_tick(beats, w + 1, t));
    }
    assert forall|i: int, j: int|
        #[trigger] crossing_tick(beats, i, t) && #[trigger] crossing_tick(
            beats,
            j,
            t,
        ) implies i == j by {
        if i < j {
            assert(beats[i + 1] <= beats[j]);
        } else if j < i {
            assert(beats[j + 1] <= beats[i]);
        }
    }
}

/// Law: when one tick interval of a monotone run crosses an earlier threshold
/// and another crosses a later one, the earlier threshold is crossed on the
/// earlier (or same) tick.
pub proof fn lemma_threshold_order(beats: Seq<int>, t1: int, t2: int, i: int, j: int)
    requires
        forall|p: int, q: int| 0 <= p <= q < beats.len() ==> beats[p] <= beats[q],
        t1 <= t2,
        crossing_tick(beats, i, t1),
        crossing_tick(beats, j, t2),
    ensures
        i <= j,
{
    if j < i {
        assert(beats[j + 1] <= beats[i]);
    }
}

/// Law: over one swing whose per-tick beat positions are monotone, start at
/// or before the damage window and run past the swing's end, the damage
/// window opens on exactly one tick, closes on exactly one tick no earlier,
/// and the swing terminates on exactly one tick no earlier than that — in
/// that order, regardless of tick granularity. `beats[i]` and `beats[i + 1]`
/// are the beat interval of tick `i`, the values handed to `animate_hammer`
/// as `prev_beat` and `beat`.
pub proof fn lemma_swing_lifecycle(beats: Seq<int>)
    requires
        beats.len() >= 2,
        forall|i: int, j: int| 0 <= i <= j < beats.len() ==> beats[i] <= beats[j],
        beats.first() <= DAMAGE_START_BEAT as int,
        (SWING_END_BEAT as int) < beats.last(),
    ensures
        exists|i: int| crossing_tick(beats, i, DAMAGE_START_BEAT as int),
        exists|i: int| crossing_tick(beats, i, DAMAGE_END_BEAT as int),
        exists|i: int| crossing_tick(beats, i, SWING_END_BEAT as int),
        forall|t: int, i: int, j: int|
            ((t == DAMAGE_START_BEAT as int || t == DAMAGE_END_BEAT as int || t
                == SWING_END_BEAT as int) && #[trigger] crossing_tick(beats, i, t)
                && #[trigger] crossing_tick(beats, j, t)) ==> i == j,
        forall|i: int, j: int|
            #[trigger] crossing_tick(beats, i, DAMAGE_START_BEAT as int)
                && #[trigger] crossing_tick(beats, j, DAMAGE_END_BEAT as int) ==> i <= j,
        forall|i: int, j: int|
            #[trigger] crossing_tick(beats, i, DAMAGE_END_BEAT as int) && #[trigger] crossing_tick(
                beats,
                j,
                SWING_END_BEAT as int,
            ) ==> i <= j,
{
    lemma_threshold_crossed_once(beats, DAMAGE_START_BEAT as int);
    lemma_threshold_crossed_once(beats, DAMAGE_END_BEAT as int);
    lemma_threshold_crossed_once(beats, SWING_END_BEAT as int);
    assert forall|i: int, j: int|
        #[trigger] crossing_tick(beats, i, DAMAGE_START_BEAT as int) && #[trigger] crossing_tick(
            beats,
            j,
            DAMAGE_END_BEAT as int,
        ) implies i <= j by {
        lemma_threshold_order(beats, DAMAGE_START_BEAT as int, DAMAGE_END_BEAT as int, i, j);
    }
    assert forall|i: int, j: int|
        #[trigger] crossing_tick(beats, i, DAMAGE_END_BEAT as int) && #[trigger] crossing_tick(
            beats,
            j,
            SWING_END_BEAT as int,
        ) implies i <= j by {
        lemma_threshold_order(beats, DAMAGE_END_BEAT as int, SWING_END_BEAT as int, i, j);
    }
}

} // verus!
