//! The entity registry: simulation objects are identified by stable integer
//! ids and aggregate independent attribute records. A weak back-reference
//! (such as an enemy's `enemy_above` field) is a plain id resolved through
//! the registry on each access; lookups of destroyed ids report absence.

use vstd::pervasive::VecAdditionalExecFns;
use vstd::prelude::*;

use crate::bullets::Bullet;
use crate::collisions::{Aabb, Vec2};
use crate::enemies::{Enemy, ShootCycle};
use crate::player::Player;

verus! {

/// Coordinate magnitude accepted by the arithmetic of the simulation.
pub const MAX_COORD: i64 = 1_000_000_000_000;

/// Velocity magnitude (units per second) accepted by the simulation.
pub const MAX_SPEED: i64 = 1_000_000;

/// Longest simulation step, in milliseconds.
pub const MAX_DT: i64 = 1_000_000;

/// Largest play-field width or height, in units.
pub const MAX_WIN: i64 = 1_000_000_000;

/// Timer magnitude bound, in milliseconds.
pub const MAX_TIME: i64 = 1_000_000_000_000;

/// Screen-relative bound magnitude, in thousandths of the window size.
pub const MAX_PERMILLE: i64 = 10_000;

/// The per-kind attribute records an entity may carry.
#[derive(Clone, Copy, Debug, PartialEq, Eq, Structural)]
pub enum Kind {
    Bullet(Bullet),
    Enemy(Enemy, ShootCycle),
    Player(Player),
}

/// A simulation entity: a stable id, a position, a collider given as
/// half-extents, an opaque visual handle, and its kind-specific record.
#[derive(Clone, Copy, Debug, PartialEq, Eq, Structural)]
pub struct Entity {
    pub id: u64,
    pub pos: Vec2,
    pub aabb: Aabb,
    pub color: u64,
    pub kind: Kind,
}

pub open spec fn is_bullet(e: Entity) -> bool {
    e.kind is Bullet
}

pub open spec fn is_enemy(e: Entity) -> bool {
    e.kind is Enemy
}

pub open spec fn is_player(e: Entity) -> bool {
    e.kind is Player
}

/// Whether some entity of the sequence carries the id.
pub open spec fn contains_id(s: Seq<Entity>, id: u64) -> bool {
    exists|i: int| 0 <= i < s.len() && s[i].id == id
}

/// The index of the entity carrying the id (meaningful when ids are unique
/// and the id is present).
pub open spec fn index_of_id(s: Seq<Entity>, id: u64) -> int {
    choose|i: int| 0 <= i < s.len() && s[i].id == id
}

/// The entity carrying the id.
pub open spec fn ent_by_id(s: Seq<Entity>, id: u64) -> Entity {
    s[index_of_id(s, id)]
}

/// No two entities of the sequence share an id.
pub open spec fn ids_unique(s: Seq<Entity>) -> bool {
    forall|i: int, j: int|
        0 <= i < s.len() && 0 <= j < s.len() && i != j ==> s[i].id != s[j].id
}

/// Position and collider extents lie within the coordinate bound.
pub open spec fn geom_bounded(e: Entity) -> bool {
    &&& -MAX_COORD <= e.pos.x <= MAX_COORD
    &&& -MAX_COORD <= e.pos.y <= MAX_COORD
    &&& 0 <= e.aabb.extents.x <= MAX_COORD
    &&& 0 <= e.aabb.extents.y <= MAX_COORD
}

/// Kind-specific fields lie within the bounds the arithmetic accepts.
pub open spec fn attrs_bounded(e: Entity) -> bool {
    match e.kind {
        Kind::Bullet(b) => {
            &&& -MAX_SPEED <= b.speed.x <= MAX_SPEED
            &&& -MAX_SPEED <= b.speed.y <= MAX_SPEED
        },
        Kind::Enemy(_, cy) => {
            &&& -MAX_TIME <= cy.timer <= MAX_TIME
            &&& -MAX_TIME <= cy.reset <= MAX_TIME
        },
        Kind::Player(p) => {
            &&& -MAX_SPEED <= p.move_speed <= MAX_SPEED
            &&& -MAX_PERMILLE <= p.min_pos.x <= MAX_PERMILLE
            &&& -MAX_PERMILLE <= p.min_pos.y <= MAX_PERMILLE
            &&& -MAX_PERMILLE <= p.max_pos.x <= MAX_PERMILLE
            &&& -MAX_PERMILLE <= p.max_pos.y <= MAX_PERMILLE
            &&& -MAX_TIME <= p.shoot_timer <= MAX_TIME
            &&& 0 <= p.between_shots <= MAX_TIME
            &&& -MAX_COORD <= p.nuzzle_displacement.x <= MAX_COORD
            &&& -MAX_COORD <= p.nuzzle_displacement.y <= MAX_COORD
            &&& -MAX_SPEED <= p.bullet_speed.x <= MAX_SPEED
            &&& -MAX_SPEED <= p.bullet_speed.y <= MAX_SPEED
        },
    }
}

/// The registry of live entities. Entities are stored in spawn order; ids
/// are never reused within a session.
pub struct Registry {
    pub entities: Vec<Entity>,
    pub next_id: u64,
}

impl Registry {
    /// Every stored id is fresh with respect to `next_id` and no id occurs
    /// twice.
    pub open spec fn wf(self) -> bool {
        &&& forall|i: int|
            0 <= i < self.entities@.len() ==> #[trigger] self.entities@[i].id < self.next_id
        &&& ids_unique(self.entities@)
    }

    pub open spec fn geom_ok(self) -> bool {
        forall|i: int| 0 <= i < self.entities@.len() ==> geom_bounded(#[trigger] self.entities@[i])
    }

    pub open spec fn attrs_ok(self) -> bool {
        forall|i: int| 0 <= i < self.entities@.len() ==> attrs_bounded(#[trigger] self.entities@[i])
    }

    pub fn new() -> (r: Registry)
        ensures
            r.wf(),
            r.entities@.len() == 0,
            r.next_id == 0,
    {
        Registry { entities: Vec::new(), next_id: 0 }
    }

    /// Looks an id up; a destroyed or never-issued id reports absence.
    pub fn find(&self, id: u64) -> (r: Option<usize>)
        ensures
            match r {
                Some(i) => i < self.entities@.len() && self.entities@[i as int].id == id,
                None => !contains_id(self.entities@, id),
            },
    {
        let n = self.entities.len();
        let mut i: usize = 0;
        while i < n
            invariant
                i <= n,
                n == self.entities@.len(),
                forall|j: int| 0 <= j < i ==> self.entities@[j].id != id,
            decreases n - i,
        {
            if self.entities[i].id == id {
                return Some(i);
            }
            i = i + 1;
        }
        None
    }

    /// Creates an entity with a fresh id and appends it to the registry.
    pub fn spawn(&mut self, pos: Vec2, aabb: Aabb, color: u64, kind: Kind) -> (id: u64)
        requires
            old(self).wf(),
            old(self).next_id < u64::MAX,
        ensures
            final(self).wf(),
            id == old(self).next_id,
            final(self).next_id == old(self).next_id + 1,
            final(self).entities@ == old(self).entities@.push(Entity { id, pos, aabb, color, kind }),
    {
        let id = self.next_id;
        self.entities.push(Entity { id, pos, aabb, color, kind });
        self.next_id = self.next_id + 1;
        id
    }

    /// Replaces the record of the entity at a known index; the id must be
    /// kept, so ids stay unique.
    pub fn replace_at(&mut self, i: usize, e: Entity)
        requires
            old(self).wf(),
            i < old(self).entities@.len(),
            e.id == old(self).entities@[i as int].id,
        ensures
            final(self).wf(),
            final(self).next_id == old(self).next_id,
            final(self).entities@ == old(self).entities@.update(i as int, e),
    {
        self.entities.set(i, e);
    }

    /// Destroys the entity at a known index, keeping the order of the rest.
    pub fn remove_at(&mut self, i: usize)
        requires
            old(self).wf(),
            i < old(self).entities@.len(),
        ensures
            final(self).wf(),
            final(self).next_id == old(self).next_id,
            final(self).entities@ == old(self).entities@.remove(i as int),
    {
        self.entities.remove(i);
    }
}

/// Magnitude of a mathematical integer.
pub open spec fn iabs(a: int) -> int {
    if a >= 0 {
        a
    } else {
        -a
    }
}

/// Division by 1000 that truncates toward zero, as the machine's division
/// does.
pub open spec fn div1000_trunc(a: int) -> int {
    if a >= 0 {
        a / 1000
    } else {
        -((-a) / 1000)
    }
}

/// Displacement covered in `dt` milliseconds at `v` units per second:
/// `v * dt / 1000`, truncated toward zero.
pub fn scale_by_time(v: i64, dt: i64) -> (r: i64)
    requires
        -MAX_SPEED <= v <= MAX_SPEED,
        0 <= dt <= MAX_DT,
    ensures
        r == div1000_trunc(v * dt),
        -MAX_WIN <= r <= MAX_WIN,
{
    proof {
        assert(-1_000_000_000_000 <= v * dt <= 1_000_000_000_000) by (nonlinear_arith)
            requires
                -1_000_000 <= v <= 1_000_000,
                0 <= dt <= 1_000_000,
        ;
    }
    let prod: i64 = v * dt;
    if prod >= 0 {
        ((prod as u64) / 1000) as i64
    } else {
        let q: i64 = (((-prod) as u64) / 1000) as i64;
        -q
    }
}

/// A screen-relative bound in thousandths of the window size, resolved
/// against the current window dimension: `p * w / 1000`, truncated toward
/// zero.
pub fn scale_by_permille(p: i64, w: i64) -> (r: i64)
    requires
        -MAX_PERMILLE <= p <= MAX_PERMILLE,
        0 <= w <= MAX_WIN,
    ensures
        r == div1000_trunc(p * w),
        -MAX_COORD <= r <= MAX_COORD,
{
    proof {
        assert(-10_000_000_000_000 <= p * w <= 10_000_000_000_000) by (nonlinear_arith)
            requires
                -10_000 <= p <= 10_000,
                0 <= w <= 1_000_000_000,
        ;
    }
    let prod: i64 = p * w;
    if prod >= 0 {
        ((prod as u64) / 1000) as i64
    } else {
        let q: i64 = (((-prod) as u64) / 1000) as i64;
        -q
    }
}

/// When ids are unique, an index holding the id is the index of the id.
pub proof fn lemma_index_of_unique(s: Seq<Entity>, i: int, id: u64)
    requires
        ids_unique(s),
        0 <= i < s.len(),
        s[i].id == id,
    ensures
        index_of_id(s, id) == i,
        contains_id(s, id),
        ent_by_id(s, id) == s[i],
{
    assert(contains_id(s, id));
    let j = index_of_id(s, id);
    assert(0 <= j < s.len() && s[j].id == id);
}

/// Destroying the entity that carries an id removes exactly that entity:
/// the id reports absent afterwards, and every other entity is retained
/// unchanged, ids staying unique.
pub proof fn lemma_remove_id(s: Seq<Entity>, id: u64)
    requires
        ids_unique(s),
        contains_id(s, id),
    ensures
        ({
            let t = s.remove(index_of_id(s, id));
            &&& t.len() == s.len() - 1
            &&& ids_unique(t)
            &&& !contains_id(t, id)
            &&& forall|x: u64| x != id ==> (contains_id(t, x) <==> contains_id(s, x))
            &&& forall|x: u64|
                x != id && contains_id(s, x) ==> ent_by_id(t, x) == ent_by_id(s, x)
        }),
{
    let i = index_of_id(s, id);
    assert(0 <= i < s.len() && s[i].id == id);
    let t = s.remove(i);
    s.remove_ensures(i);
    assert forall|j1: int, j2: int|
        0 <= j1 < t.len() && 0 <= j2 < t.len() && j1 != j2 implies t[j1].id != t[j2].id by {
        let k1: int = if j1 < i {
            j1
        } else {
            j1 + 1
        };
        let k2: int = if j2 < i {
            j2
        } else {
            j2 + 1
        };
        assert(t[j1] == s[k1]);
        assert(t[j2] == s[k2]);
    }
    assert forall|j: int| 0 <= j < t.len() implies t[j].id != id by {
        let k: int = if j < i {
            j
        } else {
            j + 1
        };
        assert(t[j] == s[k]);
        assert(k != i);
    }
    assert forall|x: u64| x != id && contains_id(s, x) implies contains_id(t, x) && ent_by_id(
        t,
        x,
    ) == ent_by_id(s, x) by {
        let ix = index_of_id(s, x);
        assert(0 <= ix < s.len() && s[ix].id == x);
        assert(ix != i);
        if ix < i {
            assert(t[ix] == s[ix]);
            lemma_index_of_unique(t, ix, x);
        } else {
            assert(t[ix - 1] == s[ix]);
            lemma_index_of_unique(t, ix - 1, x);
        }
        lemma_index_of_unique(s, ix, x);
    }
    assert forall|x: u64| x != id && contains_id(t, x) implies contains_id(s, x) by {
        let jx = index_of_id(t, x);
        assert(0 <= jx < t.len() && t[jx].id == x);
        let k: int = if jx < i {
            jx
        } else {
            jx + 1
        };
        assert(t[jx] == s[k]);
    }
}

} // verus!
