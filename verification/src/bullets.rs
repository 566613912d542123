//! The projectile lifecycle: spawning from requests, integration with
//! off-field destruction, collision reaction, and board clearing.

use vstd::prelude::*;

use crate::collisions::{Aabb, Collision, Vec2};
use crate::world::{
    contains_id, div1000_trunc, ent_by_id, geom_bounded, iabs, ids_unique, index_of_id, is_bullet,
    lemma_index_of_unique, lemma_remove_id, scale_by_time, Entity, Kind, Registry, MAX_DT, MAX_WIN,
};

verus! {

/// A bullet attribute record: its velocity in units per second. A bullet
/// is owned exclusively by its entity and destroyed on leaving the play
/// field or on a qualifying collision.
#[derive(Clone, Copy, Debug, PartialEq, Eq, Structural)]
pub struct Bullet {
    pub speed: Vec2,
}

/// A request to spawn a bullet: velocity, world position, an opaque visual
/// handle, and the sprite size whose halves become the collider extents.
#[derive(Clone, Copy, Debug, PartialEq, Eq, Structural)]
pub struct SpawnBulletEvent {
    pub bullet: Bullet,
    pub position: Vec2,
    pub color: u64,
    pub size: Vec2,
}

/// The entity a spawn request creates under a given fresh id.
pub open spec fn bullet_entity(ev: SpawnBulletEvent, id: u64) -> Entity {
    Entity {
        id,
        pos: ev.position,
        aabb: Aabb { extents: Vec2 { x: (ev.size.x / 2) as i64, y: (ev.size.y / 2) as i64 } },
        color: ev.color,
        kind: Kind::Bullet(ev.bullet),
    }
}

/// The entities a batch of spawn requests creates, ids issued in order.
pub open spec fn spawned_bullets(evs: Seq<SpawnBulletEvent>, base: u64) -> Seq<Entity> {
    Seq::new(evs.len(), |m: int| bullet_entity(evs[m], (base + m) as u64))
}

/// Spawns one bullet entity per request, in request order. Rate limiting
/// is the caller's responsibility.
pub fn spawn_bullet_on_event(reg: &mut Registry, events: &Vec<SpawnBulletEvent>)
    requires
        old(reg).wf(),
        old(reg).next_id + events@.len() <= u64::MAX,
        forall|m: int|
            0 <= m < events@.len() ==> 0 <= #[trigger] events@[m].size.x && 0 <= events@[m].size.y,
    ensures
        final(reg).wf(),
        final(reg).next_id == old(reg).next_id + events@.len(),
        final(reg).entities@ == old(reg).entities@ + spawned_bullets(events@, old(reg).next_id),
{
    let ghost s0 = old(reg).entities@;
    let ghost base = old(reg).next_id;
    let n = events.len();
    let mut k: usize = 0;
    while k < n
        invariant
            k <= n,
            n == events@.len(),
            reg.wf(),
            reg.next_id == base + k,
            base + n <= u64::MAX,
            forall|m: int|
                0 <= m < events@.len() ==> 0 <= #[trigger] events@[m].size.x
                    && 0 <= events@[m].size.y,
            reg.entities@ == s0 + spawned_bullets(events@.take(k as int), base),
        decreases n - k,
    {
        let ev = events[k];
        let ex: i64 = ((ev.size.x as u64) / 2) as i64;
        let ey: i64 = ((ev.size.y as u64) / 2) as i64;
        reg.spawn(
            ev.position,
            Aabb { extents: Vec2 { x: ex, y: ey } },
            ev.color,
            Kind::Bullet(ev.bullet),
        );
        proof {
            assert(spawned_bullets(events@.take(k + 1), base) =~= spawned_bullets(
                events@.take(k as int),
                base,
            ).push(bullet_entity(events@[k as int], (base + k) as u64)));
            assert(reg.entities@ =~= s0 + spawned_bullets(events@.take(k + 1), base));
        }
        k = k + 1;
    }
    proof {
        assert(events@.take(n as int) =~= events@);
    }
}

/// A bullet advanced by `velocity * elapsed / 1000`; any other entity is
/// untouched.
pub open spec fn bullet_moved(e: Entity, dt: int) -> Entity {
    match e.kind {
        Kind::Bullet(b) => Entity {
            id: e.id,
            pos: Vec2 {
                x: (e.pos.x + div1000_trunc(b.speed.x * dt)) as i64,
                y: (e.pos.y + div1000_trunc(b.speed.y * dt)) as i64,
            },
            aabb: e.aabb,
            color: e.color,
            kind: e.kind,
        },
        _ => e,
    }
}

/// Whether a bullet lies outside the play field, which spans half the
/// window width and height on either side of the origin.
pub open spec fn off_field(e: Entity, w: int, h: int) -> bool {
    is_bullet(e) && (2 * iabs(e.pos.x as int) > w || 2 * iabs(e.pos.y as int) > h)
}

/// The entities after one integration tick: every bullet advanced by its
/// velocity over the elapsed time, and each bullet whose new position lies
/// outside the play field destroyed immediately, with no event.
pub open spec fn bullets_after_move(s: Seq<Entity>, dt: int, w: int, h: int) -> Seq<Entity>
    decreases s.len(),
{
    if s.len() == 0 {
        Seq::empty()
    } else {
        let rest = bullets_after_move(s.drop_last(), dt, w, h);
        let m = bullet_moved(s.last(), dt);
        if off_field(m, w, h) {
            rest
        } else {
            rest.push(m)
        }
    }
}

/// Advances every bullet and destroys the ones that left the play field.
pub fn bullets_movement(reg: &mut Registry, dt: i64, win_w: i64, win_h: i64)
    requires
        old(reg).wf(),
        old(reg).geom_ok(),
        old(reg).attrs_ok(),
        0 <= dt <= MAX_DT,
        0 <= win_w <= MAX_WIN,
        0 <= win_h <= MAX_WIN,
    ensures
        final(reg).wf(),
        final(reg).next_id == old(reg).next_id,
        final(reg).entities@ == bullets_after_move(
            old(reg).entities@,
            dt as int,
            win_w as int,
            win_h as int,
        ),
{
    let ghost s = old(reg).entities@;
    let ghost n0 = old(reg).next_id;
    let ghost mut j: int = 0;
    let mut i: usize = 0;
    while i < reg.entities.len()
        invariant
            reg.wf(),
            reg.next_id == n0,
            0 <= j <= s.len(),
            forall|m: int|
                0 <= m < s.len() ==> geom_bounded(#[trigger] s[m])
                    && crate::world::attrs_bounded(s[m]),
            0 <= dt <= MAX_DT,
            0 <= win_w <= MAX_WIN,
            0 <= win_h <= MAX_WIN,
            i == bullets_after_move(s.take(j), dt as int, win_w as int, win_h as int).len(),
            reg.entities@ == bullets_after_move(s.take(j), dt as int, win_w as int, win_h as int)
                + s.skip(j),
        decreases s.len() - j,
    {
        proof {
            assert(j < s.len());
            assert(s.skip(j)[0] == s[j]);
        }
        let e = reg.entities[i];
        assert(e == s[j]);
        let ghost done = bullets_after_move(s.take(j), dt as int, win_w as int, win_h as int);
        proof {
            assert(s.take(j + 1).drop_last() =~= s.take(j));
            assert(s.take(j + 1).last() == s[j]);
        }
        match e.kind {
            Kind::Bullet(b) => {
                let dx = scale_by_time(b.speed.x, dt);
                let dy = scale_by_time(b.speed.y, dt);
                let nx = e.pos.x + dx;
                let ny = e.pos.y + dy;
                let moved = Entity {
                    id: e.id,
                    pos: Vec2 { x: nx, y: ny },
                    aabb: e.aabb,
                    color: e.color,
                    kind: e.kind,
                };
                proof {
                    assert(moved == bullet_moved(s[j], dt as int));
                }
                let ax: i64 = if nx >= 0 {
                    nx
                } else {
                    -nx
                };
                let ay: i64 = if ny >= 0 {
                    ny
                } else {
                    -ny
                };
                if 2 * ax > win_w || 2 * ay > win_h {
                    reg.remove_at(i);
                    proof {
                        assert(off_field(moved, win_w as int, win_h as int));
                        assert(reg.entities@ =~= done + s.skip(j + 1));
                        j = j + 1;
                    }
                } else {
                    reg.replace_at(i, moved);
                    proof {
                        assert(!off_field(moved, win_w as int, win_h as int));
                        assert(reg.entities@ =~= done.push(moved) + s.skip(j + 1));
                        j = j + 1;
                    }
                    i = i + 1;
                }
            },
            _ => {
                proof {
                    assert(bullet_moved(s[j], dt as int) == e);
                    assert(!off_field(e, win_w as int, win_h as int));
                    assert(reg.entities@ =~= done.push(e) + s.skip(j + 1));
                    j = j + 1;
                }
                i = i + 1;
            },
        }
    }
    proof {
        assert(j == s.len());
        assert(s.take(j) =~= s);
        assert(s.skip(j) =~= Seq::<Entity>::empty());
        assert(reg.entities@ =~= bullets_after_move(s, dt as int, win_w as int, win_h as int));
    }
}

/// Whether the id currently denotes a live bullet entity.
pub open spec fn is_bullet_id(s: Seq<Entity>, id: u64) -> bool {
    contains_id(s, id) && is_bullet(ent_by_id(s, id))
}

/// The reaction to one collision event: destroy a side only if it is a
/// bullet and the opposite side is not also a bullet. Bullet-vs-bullet
/// pairs are ignored, and a pair of non-bullets prompts no action here.
pub open spec fn bullets_step(s: Seq<Entity>, c: Collision) -> Seq<Entity> {
    let b0 = is_bullet_id(s, c.0);
    let b1 = is_bullet_id(s, c.1);
    if b0 && !b1 {
        s.remove(index_of_id(s, c.0))
    } else if b1 && !b0 {
        s.remove(index_of_id(s, c.1))
    } else {
        s
    }
}

/// The reaction to a whole tick's collision events, applied in order; a
/// side destroyed by an earlier event of the same tick reports absent.
pub open spec fn bullets_react(s: Seq<Entity>, evs: Seq<Collision>) -> Seq<Entity>
    decreases evs.len(),
{
    if evs.len() == 0 {
        s
    } else {
        bullets_react(bullets_step(s, evs.first()), evs.drop_first())
    }
}

/// Classifies one side of a collision pair: whether the id is a live
/// bullet, and at which index it stands.
fn bullet_side(reg: &Registry, id: u64) -> (r: (bool, usize))
    requires
        reg.wf(),
    ensures
        r.0 == is_bullet_id(reg.entities@, id),
        r.0 ==> r.1 < reg.entities@.len() && index_of_id(reg.entities@, id) == r.1,
{
    match reg.find(id) {
        Some(i) => {
            proof {
                lemma_index_of_unique(reg.entities@, i as int, id);
            }
            let isb = match reg.entities[i].kind {
                Kind::Bullet(_) => true,
                _ => false,
            };
            (isb, i)
        },
        None => (false, 0),
    }
}

/// Destroys, for each collision event of the tick, the side that is a
/// bullet when the opposite side is not also one.
pub fn kill_bullets(reg: &mut Registry, colls: &Vec<Collision>)
    requires
        old(reg).wf(),
    ensures
        final(reg).wf(),
        final(reg).next_id == old(reg).next_id,
        final(reg).entities@ == bullets_react(old(reg).entities@, colls@),
{
    let ghost s0 = old(reg).entities@;
    let ghost n0 = old(reg).next_id;
    proof {
        assert(colls@.skip(0) =~= colls@);
    }
    let n = colls.len();
    let mut k: usize = 0;
    while k < n
        invariant
            k <= n,
            n == colls@.len(),
            reg.wf(),
            reg.next_id == n0,
            bullets_react(s0, colls@) == bullets_react(reg.entities@, colls@.skip(k as int)),
        decreases n - k,
    {
        let c = colls[k];
        proof {
            assert(colls@.skip(k as int).first() == c);
            assert(colls@.skip(k as int).drop_first() =~= colls@.skip(k + 1));
        }
        let ghost pre = reg.entities@;
        let (b0, i0) = bullet_side(reg, c.0);
        let (b1, i1) = bullet_side(reg, c.1);
        if b0 && !b1 {
            reg.remove_at(i0);
        } else if b1 && !b0 {
            reg.remove_at(i1);
        }
        proof {
            assert(reg.entities@ == bullets_step(pre, c));
        }
        k = k + 1;
    }
    proof {
        assert(colls@.skip(n as int) =~= Seq::<Collision>::empty());
    }
}

/// A bullet-vs-bullet collision destroys neither participant.
pub proof fn lemma_bullet_vs_bullet(s: Seq<Entity>, c: Collision)
    requires
        is_bullet_id(s, c.0),
        is_bullet_id(s, c.1),
    ensures
        bullets_step(s, c) == s,
{
}

/// A bullet-vs-non-bullet collision destroys exactly the bullet side: that
/// id reports absent afterwards, and every other entity is retained
/// unchanged.
pub proof fn lemma_bullet_vs_nonbullet(s: Seq<Entity>, c: Collision)
    requires
        ids_unique(s),
        is_bullet_id(s, c.0),
        !is_bullet_id(s, c.1),
    ensures
        !contains_id(bullets_step(s, c), c.0),
        forall|x: u64| x != c.0 ==> (contains_id(bullets_step(s, c), x) <==> contains_id(s, x)),
        forall|x: u64|
            x != c.0 && contains_id(s, x) ==> ent_by_id(bullets_step(s, c), x) == ent_by_id(s, x),
{
    lemma_remove_id(s, c.0);
}

/// The mirror case: when only the second side is a bullet, exactly that
/// side is destroyed.
pub proof fn lemma_nonbullet_vs_bullet(s: Seq<Entity>, c: Collision)
    requires
        ids_unique(s),
        !is_bullet_id(s, c.0),
        is_bullet_id(s, c.1),
    ensures
        !contains_id(bullets_step(s, c), c.1),
        forall|x: u64| x != c.1 ==> (contains_id(bullets_step(s, c), x) <==> contains_id(s, x)),
        forall|x: u64|
            x != c.1 && contains_id(s, x) ==> ent_by_id(bullets_step(s, c), x) == ent_by_id(s, x),
{
    lemma_remove_id(s, c.1);
}

/// The entities kept when the board is cleared of projectiles.
pub open spec fn non_bullets(s: Seq<Entity>) -> Seq<Entity>
    decreases s.len(),
{
    if s.len() == 0 {
        Seq::empty()
    } else {
        let rest = non_bullets(s.drop_last());
        if is_bullet(s.last()) {
            rest
        } else {
            rest.push(s.last())
        }
    }
}

/// Destroys every remaining bullet entity.
pub fn despawn_bullets(reg: &mut Registry)
    requires
        old(reg).wf(),
    ensures
        final(reg).wf(),
        final(reg).next_id == old(reg).next_id,
        final(reg).entities@ == non_bullets(old(reg).entities@),
{
    let ghost s = old(reg).entities@;
    let ghost n0 = old(reg).next_id;
    let ghost mut j: int = 0;
    let mut i: usize = 0;
    while i < reg.entities.len()
        invariant
            reg.wf(),
            reg.next_id == n0,
            0 <= j <= s.len(),
            i == non_bullets(s.take(j)).len(),
            reg.entities@ == non_bullets(s.take(j)) + s.skip(j),
        decreases s.len() - j,
    {
        proof {
            assert(j < s.len());
            assert(s.skip(j)[0] == s[j]);
        }
        let e = reg.entities[i];
        assert(e == s[j]);
        let ghost done = non_bullets(s.take(j));
        proof {
            assert(s.take(j + 1).drop_last() =~= s.take(j));
            assert(s.take(j + 1).last() == s[j]);
        }
        match e.kind {
            Kind::Bullet(_) => {
                reg.remove_at(i);
                proof {
                    assert(reg.entities@ =~= done + s.skip(j + 1));
                    j = j + 1;
                }
            },
            _ => {
                proof {
                    assert(reg.entities@ =~= done.push(e) + s.skip(j + 1));
                    j = j + 1;
                }
                i = i + 1;
            },
        }
    }
    proof {
        assert(j == s.len());
        assert(s.take(j) =~= s);
        assert(reg.entities@ =~= non_bullets(s));
    }
}

/// On round-over, unconditionally destroys every remaining bullet entity:
/// wave transitions clear the board.
pub fn despawn_bullets_on_round_over(reg: &mut Registry, round_over_events: &Vec<
    crate::enemies::RoundOver,
>)
    requires
        old(reg).wf(),
    ensures
        final(reg).wf(),
        final(reg).next_id == old(reg).next_id,
        final(reg).entities@ == if round_over_events@.len() > 0 {
            non_bullets(old(reg).entities@)
        } else {
            old(reg).entities@
        },
{
    if round_over_events.len() > 0 {
        despawn_bullets(reg);
    }
}

} // verus!
