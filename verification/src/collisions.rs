//! Axis-aligned bounding boxes and the per-tick collision scan.

use vstd::prelude::*;

use crate::world::{geom_bounded, Entity, Registry};

verus! {

/// A 2D vector with integer coordinates (one unit is one pixel).
#[derive(Clone, Copy, Debug, PartialEq, Eq, Structural)]
pub struct Vec2 {
    pub x: i64,
    pub y: i64,
}

impl Vec2 {
    pub fn new(x: i64, y: i64) -> (v: Vec2)
        ensures
            v == (Vec2 { x, y }),
    {
        Vec2 { x, y }
    }
}

/// An axis-aligned bounding box, stored as half-extents around the owning
/// entity's position. Invariant: half-extents are non-negative.
#[derive(Clone, Copy, Debug, PartialEq, Eq, Structural)]
pub struct Aabb {
    pub extents: Vec2,
}

impl Aabb {
    /// Whether the half-extents are non-negative.
    pub open spec fn wf(self) -> bool {
        self.extents.x >= 0 && self.extents.y >= 0
    }

    pub fn new(extents: Vec2) -> (b: Aabb)
        requires
            extents.x >= 0,
            extents.y >= 0,
        ensures
            b == (Aabb { extents }),
            b.wf(),
    {
        Aabb { extents }
    }
}

/// A collision event: an unordered pair of entity identifiers, valid only
/// for the tick that produced it.
#[derive(Clone, Copy, Debug, PartialEq, Eq, Structural)]
pub struct Collision(pub u64, pub u64);

/// World-space lower corner of an entity's box on the x axis.
pub open spec fn min_x(e: Entity) -> int {
    e.pos.x - e.aabb.extents.x
}

pub open spec fn max_x(e: Entity) -> int {
    e.pos.x + e.aabb.extents.x
}

pub open spec fn min_y(e: Entity) -> int {
    e.pos.y - e.aabb.extents.y
}

pub open spec fn max_y(e: Entity) -> int {
    e.pos.y + e.aabb.extents.y
}

/// Two boxes overlap when they intersect with positive area on both axes;
/// touching edges do not count as overlapping.
pub open spec fn overlap(a: Entity, b: Entity) -> bool {
    &&& min_x(a) < max_x(b)
    &&& min_y(a) < max_y(b)
    &&& min_x(b) < max_x(a)
    &&& min_y(b) < max_y(a)
}

/// The cached corners an entity contributes to the running list of already
/// processed entities: id, min x, min y, max x, max y.
pub open spec fn cached_bounds(e: Entity) -> (u64, i64, i64, i64, i64) {
    (e.id, min_x(e) as i64, min_y(e) as i64, max_x(e) as i64, max_y(e) as i64)
}

/// The events one new entity emits against the already processed entities,
/// in processing order.
pub open spec fn events_for(prev: Seq<Entity>, e: Entity) -> Seq<Collision>
    decreases prev.len(),
{
    if prev.len() == 0 {
        Seq::empty()
    } else {
        let rest = events_for(prev.drop_last(), e);
        if overlap(prev.last(), e) {
            rest.push(Collision(e.id, prev.last().id))
        } else {
            rest
        }
    }
}

/// Every event of one tick's collision scan, in emission order: each
/// unordered pair of overlapping boxes appears at most once.
pub open spec fn all_events(s: Seq<Entity>) -> Seq<Collision>
    decreases s.len(),
{
    if s.len() == 0 {
        Seq::empty()
    } else {
        all_events(s.drop_last()) + events_for(s.drop_last(), s.last())
    }
}

/// The per-tick collision scan: an incremental all-pairs pass over every
/// entity (each entity of this simulation carries a position and a
/// collider). For each entity in turn, its world-space corners are tested
/// against the cached corners of every previously processed entity, and one
/// event is emitted per strictly overlapping pair.
pub fn collision_system(reg: &Registry) -> (events: Vec<Collision>)
    requires
        reg.geom_ok(),
    ensures
        events@ == all_events(reg.entities@),
{
    let ghost s = reg.entities@;
    let mut events: Vec<Collision> = Vec::new();
    let mut passed: Vec<(u64, i64, i64, i64, i64)> = Vec::new();
    let n = reg.entities.len();
    let mut i: usize = 0;
    while i < n
        invariant
            i <= n,
            n == s.len(),
            s == reg.entities@,
            reg.geom_ok(),
            passed@.len() == i,
            forall|j: int| 0 <= j < i ==> passed@[j] == cached_bounds(s[j]),
            events@ == all_events(s.take(i as int)),
        decreases n - i,
    {
        let e = reg.entities[i];
        assert(geom_bounded(e));
        let minx = e.pos.x - e.aabb.extents.x;
        let miny = e.pos.y - e.aabb.extents.y;
        let maxx = e.pos.x + e.aabb.extents.x;
        let maxy = e.pos.y + e.aabb.extents.y;
        let mut j: usize = 0;
        while j < i
            invariant
                j <= i,
                i < n,
                n == s.len(),
                s == reg.entities@,
                reg.geom_ok(),
                passed@.len() == i,
                forall|k: int| 0 <= k < i ==> passed@[k] == cached_bounds(s[k]),
                e == s[i as int],
                minx == min_x(e) as i64,
                miny == min_y(e) as i64,
                maxx == max_x(e) as i64,
                maxy == max_y(e) as i64,
                events@ == all_events(s.take(i as int)) + events_for(s.take(j as int), e),
            decreases i - j,
        {
            let p = passed[j];
            if minx < p.3 && miny < p.4 && p.1 < maxx && p.2 < maxy {
                events.push(Collision(e.id, p.0));
            }
            proof {
                assert(s.take(j + 1).drop_last() =~= s.take(j as int));
                assert(s.take(j + 1).last() == s[j as int]);
            }
            j = j + 1;
        }
        passed.push((e.id, minx, miny, maxx, maxy));
        proof {
            assert(s.take(i + 1).drop_last() =~= s.take(i as int));
            assert(s.take(i + 1).last() == s[i as int]);
        }
        i = i + 1;
    }
    proof {
        assert(s.take(n as int) =~= s);
    }
    events
}

/// Whether an event names the unordered pair of ids `{a, b}`.
pub open spec fn names_pair(c: Collision, a: u64, b: u64) -> bool {
    (c.0 == a && c.1 == b) || (c.0 == b && c.1 == a)
}

/// How many events of the sequence name the unordered pair `{a, b}`.
pub open spec fn count_pair(evs: Seq<Collision>, a: u64, b: u64) -> nat
    decreases evs.len(),
{
    if evs.len() == 0 {
        0
    } else {
        count_pair(evs.drop_last(), a, b) + if names_pair(evs.last(), a, b) {
            1nat
        } else {
            0nat
        }
    }
}

proof fn lemma_count_pair_add(x: Seq<Collision>, y: Seq<Collision>, a: u64, b: u64)
    ensures
        count_pair(x + y, a, b) == count_pair(x, a, b) + count_pair(y, a, b),
    decreases y.len(),
{
    if y.len() == 0 {
        assert(x + y =~= x);
    } else {
        lemma_count_pair_add(x, y.drop_last(), a, b);
        assert((x + y).drop_last() =~= x + y.drop_last());
        assert((x + y).last() == y.last());
    }
}

proof fn lemma_count_pair_sym(evs: Seq<Collision>, a: u64, b: u64)
    ensures
        count_pair(evs, a, b) == count_pair(evs, b, a),
    decreases evs.len(),
{
    if evs.len() > 0 {
        lemma_count_pair_sym(evs.drop_last(), a, b);
    }
}

proof fn lemma_events_for_absent(prev: Seq<Entity>, e: Entity, a: u64, b: u64)
    requires
        e.id != a,
        e.id != b,
    ensures
        count_pair(events_for(prev, e), a, b) == 0,
    decreases prev.len(),
{
    if prev.len() > 0 {
        lemma_events_for_absent(prev.drop_last(), e, a, b);
        let rest = events_for(prev.drop_last(), e);
        if overlap(prev.last(), e) {
            let c = Collision(e.id, prev.last().id);
            assert(rest.push(c).drop_last() =~= rest);
            assert(rest.push(c).last() == c);
        }
    }
}

proof fn lemma_events_for_zero(prev: Seq<Entity>, e: Entity, a: u64, b: u64)
    requires
        e.id != b,
        forall|k: int| 0 <= k < prev.len() ==> prev[k].id != b,
    ensures
        count_pair(events_for(prev, e), a, b) == 0,
    decreases prev.len(),
{
    if prev.len() > 0 {
        lemma_events_for_zero(prev.drop_last(), e, a, b);
        assert(prev.last().id != b);
        let rest = events_for(prev.drop_last(), e);
        if overlap(prev.last(), e) {
            let c = Collision(e.id, prev.last().id);
            assert(rest.push(c).drop_last() =~= rest);
            assert(rest.push(c).last() == c);
        }
    }
}

proof fn lemma_events_for_pair(prev: Seq<Entity>, e: Entity, a: u64, i0: int)
    requires
        e.id != a,
        0 <= i0 < prev.len(),
        prev[i0].id == a,
        forall|k: int| 0 <= k < prev.len() && k != i0 ==> prev[k].id != a,
    ensures
        count_pair(events_for(prev, e), a, e.id) == if overlap(prev[i0], e) {
            1nat
        } else {
            0nat
        },
    decreases prev.len(),
{
    let rest = events_for(prev.drop_last(), e);
    if overlap(prev.last(), e) {
        let c = Collision(e.id, prev.last().id);
        assert(rest.push(c).drop_last() =~= rest);
        assert(rest.push(c).last() == c);
    }
    if i0 == prev.len() - 1 {
        lemma_count_pair_sym(rest, a, e.id);
        lemma_events_for_zero(prev.drop_last(), e, e.id, a);
    } else {
        lemma_events_for_pair(prev.drop_last(), e, a, i0);
        assert(prev.last().id != a);
    }
}

proof fn lemma_all_events_zero(s: Seq<Entity>, a: u64, b: u64)
    requires
        forall|k: int| 0 <= k < s.len() ==> s[k].id != b,
    ensures
        count_pair(all_events(s), a, b) == 0,
    decreases s.len(),
{
    if s.len() > 0 {
        let d = s.drop_last();
        assert(forall|k: int| 0 <= k < d.len() ==> d[k].id != b);
        lemma_all_events_zero(d, a, b);
        lemma_events_for_zero(d, s.last(), a, b);
        lemma_count_pair_add(all_events(d), events_for(d, s.last()), a, b);
    }
}

/// The collision scan emits exactly one unordered event per strictly
/// overlapping pair of distinct entities, and none for a pair whose boxes
/// do not overlap.
pub proof fn lemma_collision_events_exact(s: Seq<Entity>, i: int, j: int)
    requires
        crate::world::ids_unique(s),
        0 <= i < j < s.len(),
    ensures
        count_pair(all_events(s), s[i].id, s[j].id) == if overlap(s[i], s[j]) {
            1nat
        } else {
            0nat
        },
    decreases s.len(),
{
    let a = s[i].id;
    let b = s[j].id;
    let d = s.drop_last();
    if j == s.len() - 1 {
        lemma_count_pair_add(all_events(d), events_for(d, s.last()), a, b);
        assert(forall|k: int| 0 <= k < d.len() ==> d[k].id != b);
        lemma_all_events_zero(d, a, b);
        lemma_events_for_pair(d, s.last(), a, i);
    } else {
        assert(crate::world::ids_unique(d));
        lemma_collision_events_exact(d, i, j);
        lemma_count_pair_add(all_events(d), events_for(d, s.last()), a, b);
        lemma_events_for_absent(d, s.last(), a, b);
    }
}

/// For a pair of entities whose boxes do not overlap, no event of the tick
/// names that pair.
pub proof fn lemma_no_event_for_disjoint_pair(s: Seq<Entity>, i: int, j: int)
    requires
        crate::world::ids_unique(s),
        0 <= i < j < s.len(),
        !overlap(s[i], s[j]),
    ensures
        count_pair(all_events(s), s[i].id, s[j].id) == 0,
{
    lemma_collision_events_exact(s, i, j);
}

/// For a pair of entities whose boxes strictly overlap, exactly one event
/// of the tick names that pair.
pub proof fn lemma_one_event_for_overlapping_pair(s: Seq<Entity>, i: int, j: int)
    requires
        crate::world::ids_unique(s),
        0 <= i < j < s.len(),
        overlap(s[i], s[j]),
    ensures
        count_pair(all_events(s), s[i].id, s[j].id) == 1,
{
    lemma_collision_events_exact(s, i, j);
}

} // verus!
