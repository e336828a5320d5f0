//! The question whether one entity sees another.

use crate::geometry::{lemma_intersection_ignores_direction, segments_intersect, Point, Segment};
use crate::occluder::{
    lemma_segment_across_wall_is_blocked, runs_across, segment_crosses_occluder,
    segment_intersects_occluder, Occluder,
};
use vstd::prelude::*;

verus! {

/// A stable identifier of something in the scene.
#[derive(Clone, Copy, Debug, PartialEq, Eq, Structural)]
pub struct Entity(pub u32);

/// Marks an entity that can look: a viewer.
#[derive(Clone, Copy, Debug, PartialEq, Eq, Structural)]
pub struct Sighted;

/// Marks an entity that can be looked at.
#[derive(Clone, Copy, Debug, PartialEq, Eq, Structural)]
pub struct Visible;

/// What a registry holds for an identifier: nothing beyond its end.
pub open spec fn record_of<T>(records: Seq<Option<T>>, entity: Entity) -> Option<T> {
    if entity.0 < records.len() {
        records[entity.0 as int]
    } else {
        None
    }
}

/// Stores `value` for `entity`, growing the registry as far as needed.
fn put_record<T>(records: &mut Vec<Option<T>>, entity: Entity, value: Option<T>)
    ensures
        record_of(final(records)@, entity) == value,
        forall|other: Entity|
            other != entity ==> record_of(final(records)@, other) == record_of(
                old(records)@,
                other,
            ),
        final(records)@.len() >= old(records)@.len(),
        final(records)@.len() <= 0x1_0000_0000 || final(records)@.len() == old(records)@.len(),
{
    let index = entity.0 as usize;
    let ghost before = records@;
    while records.len() <= index
        invariant
            index == entity.0,
            records@.len() >= before.len(),
            records@.len() <= index + 1 || records@.len() == before.len(),
            forall|other: Entity| record_of(records@, other) == record_of(before, other),
        decreases index + 1 - records.len(),
    {
        let ghost prior = records@;
        records.push(None);
        assert forall|other: Entity| record_of(records@, other) == record_of(before, other) by {
            assert(record_of(prior, other) == record_of(before, other));
        }
    }
    let ghost grown = records@;
    records[index] = value;
    assert forall|other: Entity| other != entity implies record_of(records@, other)
        == record_of(before, other) by {
        assert(record_of(grown, other) == record_of(before, other));
    }
}

/// The slice of the scene that sight depends on: who can look, who can be
/// looked at, where everyone stands, and which walls are in the way. Each
/// is a registry from identifier to an optional record.
pub struct CheckVisibility {
    sighteds: Vec<Option<Sighted>>,
    visibles: Vec<Option<Visible>>,
    occluders: Vec<Option<Occluder>>,
    transforms: Vec<Option<Point>>,
}

impl CheckVisibility {
    /// The entity carries the sighted capability.
    pub closed spec fn sighted(self, entity: Entity) -> bool {
        record_of(self.sighteds@, entity) is Some
    }

    /// The entity carries the visible capability.
    pub closed spec fn visible(self, entity: Entity) -> bool {
        record_of(self.visibles@, entity) is Some
    }

    /// The wall the entity carries, if it is one.
    pub closed spec fn occluder(self, entity: Entity) -> Option<Occluder> {
        record_of(self.occluders@, entity)
    }

    /// Where the entity stands, if it has a place.
    pub closed spec fn transform(self, entity: Entity) -> Option<Point> {
        record_of(self.transforms@, entity)
    }

    /// One more than the largest identifier that may carry the visible
    /// capability.
    pub closed spec fn visible_bound(self) -> nat {
        self.visibles@.len()
    }

    /// Every position and every wall lies within reach of the engine.
    pub closed spec fn well_formed(self) -> bool {
        &&& forall|i: int|
            0 <= i < self.transforms@.len() ==> (#[trigger] self.transforms@[i] matches Some(p)
                ==> p.in_reach())
        &&& forall|i: int|
            0 <= i < self.occluders@.len() ==> (#[trigger] self.occluders@[i] matches Some(o)
                ==> o.in_reach())
        &&& self.occluders@.len() <= 0x1_0000_0000
        &&& self.transforms@.len() <= 0x1_0000_0000
    }

    /// The straight line from where the viewer stands to where the other
    /// entity stands.
    pub open spec fn line_of_sight(self, viewer: Entity, viewee: Entity) -> Segment {
        Segment(self.transform(viewer).unwrap(), self.transform(viewee).unwrap())
    }

    /// Some wall of the scene is crossed by the segment.
    pub open spec fn obstructed(self, line: Segment) -> bool {
        exists|entity: Entity|
            (#[trigger] self.occluder(entity)) matches Some(wall) && segment_crosses_occluder(
                line,
                wall,
            )
    }

    /// The viewer sees the other entity: it can be looked at, and no wall
    /// crosses the line between the two.
    pub open spec fn can_see(self, viewer: Entity, viewee: Entity) -> bool {
        self.visible(viewee) && !self.obstructed(self.line_of_sight(viewer, viewee))
    }

    /// An entity that cannot be looked at is seen by nobody, whatever the
    /// walls are and wherever anyone stands.
    pub proof fn lemma_invisible_is_never_seen(self, viewer: Entity, viewee: Entity)
        requires
            !self.visible(viewee),
        ensures
            !self.can_see(viewer, viewee),
    {
    }

    /// A wall that the line of sight runs across from side to side hides
    /// the one from the other.
    pub proof fn lemma_wall_between_blocks_sight(self, viewer: Entity, viewee: Entity, wall: Entity)
        requires
            self.occluder(wall) matches Some(occluder) && occluder.well_formed() && runs_across(
                self.line_of_sight(viewer, viewee),
                occluder,
            ),
        ensures
            !self.can_see(viewer, viewee),
    {
        lemma_segment_across_wall_is_blocked(
            self.line_of_sight(viewer, viewee),
            self.occluder(wall).unwrap(),
        );
    }

    /// With no wall in the scene, everything that can be looked at is
    /// seen.
    pub proof fn lemma_nothing_hides_without_walls(self, viewer: Entity, viewee: Entity)
        requires
            forall|entity: Entity| (#[trigger] self.occluder(entity)) is None,
        ensures
            self.can_see(viewer, viewee) == self.visible(viewee),
    {
    }

    /// Walls hide in both directions: of two entities that can both be
    /// looked at, either sees the other or neither does.
    pub proof fn lemma_sight_is_mutual(self, a: Entity, b: Entity)
        requires
            self.visible(a),
            self.visible(b),
        ensures
            self.can_see(a, b) == self.can_see(b, a),
    {
        let there = self.line_of_sight(a, b);
        let back = self.line_of_sight(b, a);
        assert(back == there.reversed());
        assert forall|wall: Occluder|
            segment_crosses_occluder(there, wall) == segment_crosses_occluder(back, wall) by {
            assert forall|i: int| 0 <= i < 4 implies segments_intersect(there, wall.segments()[i])
                == segments_intersect(back, wall.segments()[i]) by {
                lemma_intersection_ignores_direction(there, wall.segments()[i]);
            }
        }
    }

    /// A scene with nothing in it.
    pub fn new() -> (scene: CheckVisibility)
        ensures
            scene.well_formed(),
            scene.visible_bound() == 0,
            forall|entity: Entity| !#[trigger] scene.sighted(entity),
            forall|entity: Entity| !#[trigger] scene.visible(entity),
            forall|entity: Entity| (#[trigger] scene.occluder(entity)) is None,
            forall|entity: Entity| (#[trigger] scene.transform(entity)) is None,
    {
        CheckVisibility {
            sighteds: Vec::new(),
            visibles: Vec::new(),
            occluders: Vec::new(),
            transforms: Vec::new(),
        }
    }

    /// Whether the entity carries the sighted capability.
    pub fn is_sighted(&self, entity: Entity) -> (sighted: bool)
        ensures
            sighted == self.sighted(entity),
    {
        has_record(&self.sighteds, entity)
    }

    /// Whether the entity carries the visible capability.
    pub fn is_visible(&self, entity: Entity) -> (visible: bool)
        ensures
            visible == self.visible(entity),
    {
        has_record(&self.visibles, entity)
    }

    /// The wall the entity carries, if it is one.
    pub fn get_occluder(&self, entity: Entity) -> (occluder: Option<Occluder>)
        ensures
            occluder == self.occluder(entity),
    {
        if has_record(&self.occluders, entity) {
            Some(get_record(&self.occluders, entity))
        } else {
            None
        }
    }

    /// Where the entity stands, if it has a place.
    pub fn get_transform(&self, entity: Entity) -> (position: Option<Point>)
        ensures
            position == self.transform(entity),
    {
        if has_record(&self.transforms, entity) {
            Some(get_record(&self.transforms, entity))
        } else {
            None
        }
    }

    /// Gives the entity the sighted capability. Nothing else changes.
    pub fn insert_sighted(&mut self, entity: Entity)
        requires
            old(self).well_formed(),
        ensures
            final(self).well_formed(),
            final(self).sighted(entity),
            forall|other: Entity|
                #![trigger final(self).sighted(other)]
                other != entity ==> final(self).sighted(other) == old(self).sighted(other),
            forall|other: Entity|
                #![trigger final(self).visible(other)]
                final(self).visible(other) == old(self).visible(other),
            forall|other: Entity|
                #![trigger final(self).occluder(other)]
                final(self).occluder(other) == old(self).occluder(other),
            forall|other: Entity|
                #![trigger final(self).transform(other)]
                final(self).transform(other) == old(self).transform(other),
    {
        put_record(&mut self.sighteds, entity, Some(Sighted));
    }

    /// Gives the entity the visible capability. Nothing else changes.
    pub fn insert_visible(&mut self, entity: Entity)
        requires
            old(self).well_formed(),
        ensures
            final(self).well_formed(),
            final(self).visible(entity),
            forall|other: Entity|
                #![trigger final(self).visible(other)]
                other != entity ==> final(self).visible(other) == old(self).visible(other),
            forall|other: Entity|
                #![trigger final(self).sighted(other)]
                final(self).sighted(other) == old(self).sighted(other),
            forall|other: Entity|
                #![trigger final(self).occluder(other)]
                final(self).occluder(other) == old(self).occluder(other),
            forall|other: Entity|
                #![trigger final(self).transform(other)]
                final(self).transform(other) == old(self).transform(other),
    {
        put_record(&mut self.visibles, entity, Some(Visible));
    }

    /// Makes the entity a wall, or replaces the wall it is. Nothing else
    /// changes.
    pub fn insert_occluder(&mut self, entity: Entity, occluder: Occluder)
        requires
            old(self).well_formed(),
            occluder.in_reach(),
        ensures
            final(self).well_formed(),
            final(self).occluder(entity) == Some(occluder),
            forall|other: Entity|
                #![trigger final(self).occluder(other)]
                other != entity ==> final(self).occluder(other) == old(self).occluder(other),
            forall|other: Entity|
                #![trigger final(self).sighted(other)]
                final(self).sighted(other) == old(self).sighted(other),
            forall|other: Entity|
                #![trigger final(self).visible(other)]
                final(self).visible(other) == old(self).visible(other),
            forall|other: Entity|
                #![trigger final(self).transform(other)]
                final(self).transform(other) == old(self).transform(other),
    {
        let ghost before = self.occluders@;
        put_record(&mut self.occluders, entity, Some(occluder));
        proof {
            lemma_records_keep(before, self.occluders@, entity, |o: Occluder| o.in_reach());
        }
    }

    /// Takes the wall away from the entity, if it is one. Nothing else
    /// changes.
    pub fn remove_occluder(&mut self, entity: Entity)
        requires
            old(self).well_formed(),
        ensures
            final(self).well_formed(),
            final(self).occluder(entity) is None,
            forall|other: Entity|
                #![trigger final(self).occluder(other)]
                other != entity ==> final(self).occluder(other) == old(self).occluder(other),
            forall|other: Entity|
                #![trigger final(self).sighted(other)]
                final(self).sighted(other) == old(self).sighted(other),
            forall|other: Entity|
                #![trigger final(self).visible(other)]
                final(self).visible(other) == old(self).visible(other),
            forall|other: Entity|
                #![trigger final(self).transform(other)]
                final(self).transform(other) == old(self).transform(other),
    {
        let ghost before = self.occluders@;
        put_record(&mut self.occluders, entity, None);
        proof {
            lemma_records_keep(before, self.occluders@, entity, |o: Occluder| o.in_reach());
        }
    }

    /// Puts the entity at `position`, or moves it there. Nothing else
    /// changes.
    pub fn insert_transform(&mut self, entity: Entity, position: Point)
        requires
            old(self).well_formed(),
            position.in_reach(),
        ensures
            final(self).well_formed(),
            final(self).transform(entity) == Some(position),
            forall|other: Entity|
                #![trigger final(self).transform(other)]
                other != entity ==> final(self).transform(other) == old(self).transform(other),
            forall|other: Entity|
                #![trigger final(self).sighted(other)]
                final(self).sighted(other) == old(self).sighted(other),
            forall|other: Entity|
                #![trigger final(self).visible(other)]
                final(self).visible(other) == old(self).visible(other),
            forall|other: Entity|
                #![trigger final(self).occluder(other)]
                final(self).occluder(other) == old(self).occluder(other),
    {
        let ghost before = self.transforms@;
        put_record(&mut self.transforms, entity, Some(position));
        proof {
            lemma_records_keep(before, self.transforms@, entity, |p: Point| p.in_reach());
        }
    }

    /// Whether `viewer` sees `viewee`.
    ///
    /// An entity without the visible capability is never seen, whatever
    /// stands or does not stand in the way.
    pub fn sees(&self, viewer: Entity, viewee: Entity) -> (seen: bool)
        requires
            self.well_formed(),
            self.sighted(viewer),
            self.visible(viewee) ==> self.transform(viewer) is Some && self.transform(viewee)
                is Some,
        ensures
            seen == self.can_see(viewer, viewee),
            !self.visible(viewee) ==> !seen,
    {
        if !has_record(&self.visibles, viewee) {
            return false;
        }
        let from = get_record(&self.transforms, viewer);
        let to = get_record(&self.transforms, viewee);
        let line = Segment(from, to);
        let mut i: usize = 0;
        while i < self.occluders.len()
            invariant
                0 <= i <= self.occluders@.len(),
                self.well_formed(),
                self.visible(viewee),
                line == self.line_of_sight(viewer, viewee),
                line.in_reach(),
                forall|j: int|
                    0 <= j < i ==> (#[trigger] self.occluders@[j] matches Some(wall)
                        ==> !segment_crosses_occluder(line, wall)),
            decreases self.occluders@.len() - i,
        {
            match &self.occluders[i] {
                Some(wall) => {
                    if segment_intersects_occluder(&line, wall) {
                        proof {
                            let entity = Entity(i as u32);
                            assert(self.occluder(entity) == Some(*wall));
                        }
                        return false;
                    }
                },
                None => {},
            }
            i += 1;
        }
        proof {
            assert forall|entity: Entity| (#[trigger] self.occluder(entity)) is Some implies
                !segment_crosses_occluder(line, self.occluder(entity).unwrap()) by {
                assert(self.occluders@[entity.0 as int] == self.occluder(entity));
            }
        }
        true
    }
}

/// Tells, for everything that can be looked at except the player itself,
/// whether the player sees it. The answers are listed by identifier:
/// entry `i` belongs to `Entity(i)` and is `None` where there is nothing
/// to tell.
pub fn object_visibility(check_visibility: &CheckVisibility, player: Entity) -> (flags: Vec<
    Option<bool>,
>)
    requires
        check_visibility.well_formed(),
        check_visibility.sighted(player),
        check_visibility.transform(player) is Some,
        forall|entity: Entity| #[trigger]
            check_visibility.visible(entity) ==> check_visibility.transform(entity) is Some,
    ensures
        flags@.len() == check_visibility.visible_bound(),
        forall|entity: Entity|
            entity.0 < flags@.len() ==> flags@[entity.0 as int] == if check_visibility.visible(
                entity,
            ) && entity != player {
                Some(check_visibility.can_see(player, entity))
            } else {
                None
            },
        forall|entity: Entity|
            entity.0 >= flags@.len() ==> !#[trigger] check_visibility.visible(entity),
{
    let mut flags: Vec<Option<bool>> = Vec::new();
    let mut i: usize = 0;
    while i < check_visibility.visibles.len()
        invariant
            0 <= i <= check_visibility.visibles@.len(),
            check_visibility.well_formed(),
            check_visibility.sighted(player),
            check_visibility.transform(player) is Some,
            forall|entity: Entity| #[trigger]
                check_visibility.visible(entity) ==> check_visibility.transform(entity) is Some,
            flags@.len() == i,
            forall|entity: Entity|
                entity.0 < i ==> flags@[entity.0 as int] == if check_visibility.visible(entity)
                    && entity != player {
                    Some(check_visibility.can_see(player, entity))
                } else {
                    None
                },
        decreases check_visibility.visibles@.len() - i,
    {
        let flag = if i <= u32::MAX as usize {
            let entity = Entity(i as u32);
            if entity.0 != player.0 && has_record(&check_visibility.visibles, entity) {
                Some(check_visibility.sees(player, entity))
            } else {
                None
            }
        } else {
            None
        };
        flags.push(flag);
        i += 1;
    }
    flags
}

/// Tells for each of the given viewers whether it sees the player: `None`
/// for one that cannot look at all.
pub fn see_player(check_visibility: &CheckVisibility, player: Entity, npcs: &Vec<Entity>) -> (seen:
    Vec<Option<bool>>)
    requires
        check_visibility.well_formed(),
        check_visibility.visible(player) ==> check_visibility.transform(player) is Some,
        check_visibility.visible(player) ==> forall|i: int|
            0 <= i < npcs@.len() && check_visibility.sighted(#[trigger] npcs@[i])
                ==> check_visibility.transform(npcs@[i]) is Some,
    ensures
        seen@.len() == npcs@.len(),
        forall|i: int|
            0 <= i < npcs@.len() ==> seen@[i] == if check_visibility.sighted(#[trigger] npcs@[i]) {
                Some(check_visibility.can_see(npcs@[i], player))
            } else {
                None
            },
{
    let mut seen: Vec<Option<bool>> = Vec::new();
    let mut i: usize = 0;
    while i < npcs.len()
        invariant
            0 <= i <= npcs@.len(),
            check_visibility.well_formed(),
            check_visibility.visible(player) ==> check_visibility.transform(player) is Some,
            check_visibility.visible(player) ==> forall|i: int|
                0 <= i < npcs@.len() && check_visibility.sighted(#[trigger] npcs@[i])
                    ==> check_visibility.transform(npcs@[i]) is Some,
            seen@.len() == i,
            forall|j: int|
                0 <= j < i ==> seen@[j] == if check_visibility.sighted(#[trigger] npcs@[j]) {
                    Some(check_visibility.can_see(npcs@[j], player))
                } else {
                    None
                },
        decreases npcs@.len() - i,
    {
        let npc = npcs[i];
        let flag = if has_record(&check_visibility.sighteds, npc) {
            Some(check_visibility.sees(npc, player))
        } else {
            None
        };
        seen.push(flag);
        i += 1;
    }
    seen
}

/// A property of every record survives the storing of a record that has
/// it, or of none.
proof fn lemma_records_keep<T>(
    before: Seq<Option<T>>,
    after: Seq<Option<T>>,
    entity: Entity,
    good: spec_fn(T) -> bool,
)
    requires
        forall|i: int| 0 <= i < before.len() ==> (#[trigger] before[i] matches Some(r) ==> good(r)),
        record_of(after, entity) matches Some(r) ==> good(r),
        forall|other: Entity|
            other != entity ==> record_of(after, other) == record_of(before, other),
        after.len() <= 0x1_0000_0000,
    ensures
        forall|i: int| 0 <= i < after.len() ==> (#[trigger] after[i] matches Some(r) ==> good(r)),
{
    assert forall|i: int| 0 <= i < after.len() implies (#[trigger] after[i] matches Some(r)
        ==> good(r)) by {
        let other = Entity(i as u32);
        assert(record_of(after, other) == after[i]);
        if other != entity {
            assert(record_of(before, other) == record_of(after, other));
        }
    }
}

/// Whether the registry holds a record for the entity.
fn has_record<T>(records: &Vec<Option<T>>, entity: Entity) -> (present: bool)
    ensures
        present == (record_of(records@, entity) is Some),
{
    let index = entity.0 as usize;
    index < records.len() && records[index].is_some()
}

/// The record the registry holds for the entity.
fn get_record<T: Copy>(records: &Vec<Option<T>>, entity: Entity) -> (record: T)
    requires
        record_of(records@, entity) is Some,
    ensures
        Some(record) == record_of(records@, entity),
{
    let index = entity.0 as usize;
    match records[index] {
        Some(record) => record,
        None => {
            proof {
                assert(false);
            }
            loop
                invariant
                    false,
                decreases 0int,
            {
            }
        },
    }
}

} // verus!
