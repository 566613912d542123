//! The player ship: spawning, input-driven movement with screen-relative
//! clamping, shot cadence, and the loss reaction.

use vstd::prelude::*;

use crate::bullets::{Bullet, SpawnBulletEvent};
use crate::collisions::{Aabb, Collision, Vec2};
use crate::world::{
    attrs_bounded, contains_id, div1000_trunc, ent_by_id, geom_bounded, is_player,
    lemma_index_of_unique, scale_by_permille, scale_by_time, Entity, Kind, Registry, MAX_DT,
    MAX_WIN,
};
use crate::AppState;

verus! {

/// The player attribute record. `min_pos` and `max_pos` are horizontal and
/// vertical movement bounds in thousandths of the window size, so the
/// clamped position stays resolution-independent.
#[derive(Clone, Copy, Debug, PartialEq, Eq, Structural)]
pub struct Player {
    pub move_speed: i64,
    pub min_pos: Vec2,
    pub max_pos: Vec2,
    pub shoot_timer: i64,
    pub between_shots: i64,
    pub nuzzle_displacement: Vec2,
    pub bullet_speed: Vec2,
    pub bullet_color: u64,
}

/// Clamping into `[lo, hi]`, the upper bound applied first: when the
/// bounds cross, the lower bound wins.
pub open spec fn clamp(v: int, lo: int, hi: int) -> int {
    let upper = if v < hi {
        v
    } else {
        hi
    };
    if upper > lo {
        upper
    } else {
        lo
    }
}

fn clamp_i64(v: i64, lo: i64, hi: i64) -> (r: i64)
    ensures
        r == clamp(v as int, lo as int, hi as int),
{
    let upper = if v < hi {
        v
    } else {
        hi
    };
    if upper > lo {
        upper
    } else {
        lo
    }
}

/// Whenever the bounds are ordered, the clamped value lies between them,
/// inclusive.
pub proof fn lemma_clamp_in_bounds(v: int, lo: int, hi: int)
    requires
        lo <= hi,
    ensures
        lo <= clamp(v, lo, hi) <= hi,
{
}

/// The player record a fresh session spawns with: fixed starting
/// position, speed, screen-relative movement bounds, shot cadence, muzzle
/// offset, and bullet parameters.
pub open spec fn initial_player(bullet_color: u64) -> Player {
    Player {
        move_speed: 120,
        min_pos: Vec2 { x: (-400) as i64, y: (-400) as i64 },
        max_pos: Vec2 { x: 400, y: (-400) as i64 },
        shoot_timer: 0,
        between_shots: 500,
        nuzzle_displacement: Vec2 { x: 0, y: 30 },
        bullet_speed: Vec2 { x: 0, y: 140 },
        bullet_color,
    }
}

/// The entity the player spawn creates under a given fresh id.
pub open spec fn player_entity(id: u64, color: u64, bullet_color: u64) -> Entity {
    Entity {
        id,
        pos: Vec2 { x: 0, y: (-300) as i64 },
        aabb: Aabb { extents: Vec2 { x: 10, y: 10 } },
        color,
        kind: Kind::Player(initial_player(bullet_color)),
    }
}

/// Spawns the single player entity on entering active play.
pub fn spawn_player_startup(reg: &mut Registry, player_color: u64, bullet_color: u64) -> (id: u64)
    requires
        old(reg).wf(),
        old(reg).next_id < u64::MAX,
    ensures
        final(reg).wf(),
        id == old(reg).next_id,
        final(reg).next_id == old(reg).next_id + 1,
        final(reg).entities@ == old(reg).entities@.push(
            player_entity(id, player_color, bullet_color),
        ),
{
    reg.spawn(
        Vec2 { x: 0, y: -300 },
        Aabb { extents: Vec2 { x: 10, y: 10 } },
        player_color,
        Kind::Player(
            Player {
                move_speed: 120,
                min_pos: Vec2 { x: -400, y: -400 },
                max_pos: Vec2 { x: 400, y: -400 },
                shoot_timer: 0,
                between_shots: 500,
                nuzzle_displacement: Vec2 { x: 0, y: 30 },
                bullet_speed: Vec2 { x: 0, y: 140 },
                bullet_color,
            },
        ),
    )
}

/// The horizontal direction the held movement keys request.
pub open spec fn player_dir(left: bool, right: bool) -> int {
    (if right {
        1int
    } else {
        0int
    }) - (if left {
        1int
    } else {
        0int
    })
}

/// A player after one input tick: displaced horizontally by the held
/// keys, clamped into the screen-relative bounds (recomputed against the
/// current window size), with the shot countdown decremented while
/// positive, or reset to the cadence when an elapsed countdown meets a
/// held fire key. Any other entity is untouched.
pub open spec fn player_updated(
    e: Entity,
    dt: int,
    w: int,
    h: int,
    left: bool,
    right: bool,
    shoot: bool,
) -> Entity {
    match e.kind {
        Kind::Player(p) => {
            let disp = div1000_trunc(p.move_speed * player_dir(left, right) * dt);
            let nx = clamp(
                e.pos.x + disp,
                div1000_trunc(p.min_pos.x * w),
                div1000_trunc(p.max_pos.x * w),
            );
            let ny = clamp(
                e.pos.y as int,
                div1000_trunc(p.min_pos.y * h),
                div1000_trunc(p.max_pos.y * h),
            );
            let np = Player {
                move_speed: p.move_speed,
                min_pos: p.min_pos,
                max_pos: p.max_pos,
                shoot_timer: if p.shoot_timer > 0 {
                    (p.shoot_timer - dt) as i64
                } else if shoot {
                    p.between_shots
                } else {
                    p.shoot_timer
                },
                between_shots: p.between_shots,
                nuzzle_displacement: p.nuzzle_displacement,
                bullet_speed: p.bullet_speed,
                bullet_color: p.bullet_color,
            };
            Entity {
                id: e.id,
                pos: Vec2 { x: nx as i64, y: ny as i64 },
                aabb: e.aabb,
                color: e.color,
                kind: Kind::Player(np),
            }
        },
        _ => e,
    }
}

/// Whether a player fires this tick: its countdown has elapsed and the
/// fire key is held.
pub open spec fn player_fires(e: Entity, shoot: bool) -> bool {
    match e.kind {
        Kind::Player(p) => p.shoot_timer <= 0 && shoot,
        _ => false,
    }
}

/// The spawn request a firing player emits: its bullet velocity, spawned
/// at the clamped position plus the muzzle offset, with its bullet
/// visual.
pub open spec fn player_bullet_event(
    e: Entity,
    dt: int,
    w: int,
    h: int,
    left: bool,
    right: bool,
) -> SpawnBulletEvent {
    match e.kind {
        Kind::Player(p) => {
            let u = player_updated(e, dt, w, h, left, right, true);
            SpawnBulletEvent {
                bullet: Bullet { speed: p.bullet_speed },
                position: Vec2 {
                    x: (u.pos.x + p.nuzzle_displacement.x) as i64,
                    y: (u.pos.y + p.nuzzle_displacement.y) as i64,
                },
                color: p.bullet_color,
                size: Vec2 { x: 10, y: 10 },
            }
        },
        _ => SpawnBulletEvent {
            bullet: Bullet { speed: Vec2 { x: 0, y: 0 } },
            position: Vec2 { x: 0, y: 0 },
            color: 0,
            size: Vec2 { x: 10, y: 10 },
        },
    }
}

/// The spawn requests one input tick emits, in registry order.
pub open spec fn player_shot_events(
    s: Seq<Entity>,
    dt: int,
    w: int,
    h: int,
    left: bool,
    right: bool,
    shoot: bool,
) -> Seq<SpawnBulletEvent>
    decreases s.len(),
{
    if s.len() == 0 {
        Seq::empty()
    } else {
        let rest = player_shot_events(s.drop_last(), dt, w, h, left, right, shoot);
        if player_fires(s.last(), shoot) {
            rest.push(player_bullet_event(s.last(), dt, w, h, left, right))
        } else {
            rest
        }
    }
}

/// Reads the held movement and fire keys and advances every player
/// entity: horizontal displacement scaled by speed and elapsed time,
/// position clamped into the screen-relative bounds, and the shot cadence
/// maintained, emitting one spawn request per shot.
#[verifier::loop_isolation(false)]
pub fn player_input(
    reg: &mut Registry,
    dt: i64,
    win_w: i64,
    win_h: i64,
    left: bool,
    right: bool,
    shoot: bool,
) -> (events: Vec<SpawnBulletEvent>)
    requires
        old(reg).wf(),
        old(reg).geom_ok(),
        old(reg).attrs_ok(),
        0 <= dt <= MAX_DT,
        0 <= win_w <= MAX_WIN,
        0 <= win_h <= MAX_WIN,
    ensures
        final(reg).wf(),
        final(reg).next_id == old(reg).next_id,
        final(reg).entities@ == old(reg).entities@.map_values(
            |e: Entity|
                player_updated(e, dt as int, win_w as int, win_h as int, left, right, shoot),
        ),
        events@ == player_shot_events(
            old(reg).entities@,
            dt as int,
            win_w as int,
            win_h as int,
            left,
            right,
            shoot,
        ),
{
    let ghost s = old(reg).entities@;
    let dir: i64 = (if right {
        1i64
    } else {
        0i64
    }) - (if left {
        1i64
    } else {
        0i64
    });
    proof {
        assert(dir == player_dir(left, right));
    }
    let mut events: Vec<SpawnBulletEvent> = Vec::new();
    let n = reg.entities.len();
    let mut i: usize = 0;
    while i < n
        invariant
            i <= n,
            reg.wf(),
            reg.next_id == old(reg).next_id,
            reg.entities@.len() == n,
            forall|k: int|
                0 <= k < i ==> reg.entities@[k] == player_updated(
                    #[trigger] s[k],
                    dt as int,
                    win_w as int,
                    win_h as int,
                    left,
                    right,
                    shoot,
                ),
            forall|k: int| i <= k < n ==> reg.entities@[k] == #[trigger] s[k],
            events@ == player_shot_events(
                s.take(i as int),
                dt as int,
                win_w as int,
                win_h as int,
                left,
                right,
                shoot,
            ),
        decreases n - i,
    {
        let e = reg.entities[i];
        assert(e == s[i as int]);
        proof {
            assert(s.take(i + 1).drop_last() =~= s.take(i as int));
            assert(s.take(i + 1).last() == s[i as int]);
        }
        match e.kind {
            Kind::Player(p) => {
                let vel: i64 = p.move_speed * dir;
                let disp = scale_by_time(vel, dt);
                let lo_x = scale_by_permille(p.min_pos.x, win_w);
                let hi_x = scale_by_permille(p.max_pos.x, win_w);
                let lo_y = scale_by_permille(p.min_pos.y, win_h);
                let hi_y = scale_by_permille(p.max_pos.y, win_h);
                let nx = clamp_i64(e.pos.x + disp, lo_x, hi_x);
                let ny = clamp_i64(e.pos.y, lo_y, hi_y);
                let fired = p.shoot_timer <= 0 && shoot;
                let nt: i64 = if p.shoot_timer > 0 {
                    p.shoot_timer - dt
                } else if shoot {
                    p.between_shots
                } else {
                    p.shoot_timer
                };
                let np = Player {
                    move_speed: p.move_speed,
                    min_pos: p.min_pos,
                    max_pos: p.max_pos,
                    shoot_timer: nt,
                    between_shots: p.between_shots,
                    nuzzle_displacement: p.nuzzle_displacement,
                    bullet_speed: p.bullet_speed,
                    bullet_color: p.bullet_color,
                };
                let updated = Entity {
                    id: e.id,
                    pos: Vec2 { x: nx, y: ny },
                    aabb: e.aabb,
                    color: e.color,
                    kind: Kind::Player(np),
                };
                proof {
                    assert(updated == player_updated(
                        s[i as int],
                        dt as int,
                        win_w as int,
                        win_h as int,
                        left,
                        right,
                        shoot,
                    ));
                }
                reg.replace_at(i, updated);
                if fired {
                    events.push(
                        SpawnBulletEvent {
                            bullet: Bullet { speed: p.bullet_speed },
                            position: Vec2 {
                                x: nx + p.nuzzle_displacement.x,
                                y: ny + p.nuzzle_displacement.y,
                            },
                            color: p.bullet_color,
                            size: Vec2 { x: 10, y: 10 },
                        },
                    );
                    proof {
                        assert(player_fires(s[i as int], shoot));
                        assert(events@.last() == player_bullet_event(
                            s[i as int],
                            dt as int,
                            win_w as int,
                            win_h as int,
                            left,
                            right,
                        ));
                        assert(events@ =~= player_shot_events(
                            s.take(i + 1),
                            dt as int,
                            win_w as int,
                            win_h as int,
                            left,
                            right,
                            shoot,
                        ));
                    }
                } else {
                    proof {
                        assert(!player_fires(s[i as int], shoot));
                    }
                }
            },
            _ => {
                proof {
                    assert(player_updated(
                        s[i as int],
                        dt as int,
                        win_w as int,
                        win_h as int,
                        left,
                        right,
                        shoot,
                    ) == e);
                    assert(!player_fires(s[i as int], shoot));
                }
            },
        }
        i = i + 1;
    }
    proof {
        assert(s.take(n as int) =~= s);
        assert(reg.entities@ =~= s.map_values(
            |e: Entity|
                player_updated(e, dt as int, win_w as int, win_h as int, left, right, shoot),
        ));
    }
    events
}

/// The player attribute record an entity carries (meaningful on players).
pub open spec fn player_of(e: Entity) -> Player
    recommends
        is_player(e),
{
    match e.kind {
        Kind::Player(p) => p,
        _ => initial_player(0),
    }
}

/// After one input tick the player's position lies within the configured
/// screen-relative bounds, inclusive, on each axis whose resolved lower
/// bound does not exceed its upper bound — whatever keys are held, so the
/// bound holds for any input sequence.
pub proof fn lemma_player_in_bounds(
    e: Entity,
    dt: int,
    w: int,
    h: int,
    left: bool,
    right: bool,
    shoot: bool,
)
    requires
        is_player(e),
        geom_bounded(e),
        attrs_bounded(e),
        0 <= dt <= MAX_DT,
        0 <= w <= MAX_WIN,
        0 <= h <= MAX_WIN,
        div1000_trunc(player_of(e).min_pos.x * w) <= div1000_trunc(player_of(e).max_pos.x * w),
        div1000_trunc(player_of(e).min_pos.y * h) <= div1000_trunc(player_of(e).max_pos.y * h),
    ensures
        ({
            let u = player_updated(e, dt, w, h, left, right, shoot);
            let p = player_of(e);
            &&& div1000_trunc(p.min_pos.x * w) <= u.pos.x <= div1000_trunc(p.max_pos.x * w)
            &&& div1000_trunc(p.min_pos.y * h) <= u.pos.y <= div1000_trunc(p.max_pos.y * h)
        }),
{
    let p = player_of(e);
    let d = player_dir(left, right);
    assert(-1 <= d <= 1);
    assert(-10_000_000_000_000 <= p.min_pos.x * w <= 10_000_000_000_000) by (nonlinear_arith)
        requires
            -10_000 <= p.min_pos.x <= 10_000,
            0 <= w <= 1_000_000_000,
    ;
    assert(-10_000_000_000_000 <= p.max_pos.x * w <= 10_000_000_000_000) by (nonlinear_arith)
        requires
            -10_000 <= p.max_pos.x <= 10_000,
            0 <= w <= 1_000_000_000,
    ;
    assert(-10_000_000_000_000 <= p.min_pos.y * h <= 10_000_000_000_000) by (nonlinear_arith)
        requires
            -10_000 <= p.min_pos.y <= 10_000,
            0 <= h <= 1_000_000_000,
    ;
    assert(-10_000_000_000_000 <= p.max_pos.y * h <= 10_000_000_000_000) by (nonlinear_arith)
        requires
            -10_000 <= p.max_pos.y <= 10_000,
            0 <= h <= 1_000_000_000,
    ;
    assert(-10_000_000_000 <= div1000_trunc(p.min_pos.x * w) <= 10_000_000_000);
    assert(-10_000_000_000 <= div1000_trunc(p.max_pos.x * w) <= 10_000_000_000);
    assert(-10_000_000_000 <= div1000_trunc(p.min_pos.y * h) <= 10_000_000_000);
    assert(-10_000_000_000 <= div1000_trunc(p.max_pos.y * h) <= 10_000_000_000);
    let disp = div1000_trunc(p.move_speed * d * dt);
    lemma_clamp_in_bounds(
        e.pos.x + disp,
        div1000_trunc(p.min_pos.x * w),
        div1000_trunc(p.max_pos.x * w),
    );
    lemma_clamp_in_bounds(
        e.pos.y as int,
        div1000_trunc(p.min_pos.y * h),
        div1000_trunc(p.max_pos.y * h),
    );
}

/// Whether the id currently denotes the live player entity.
pub open spec fn is_player_id(s: Seq<Entity>, id: u64) -> bool {
    contains_id(s, id) && is_player(ent_by_id(s, id))
}

/// Whether a collision event names a live player on either side.
pub open spec fn names_player(s: Seq<Entity>, c: Collision) -> bool {
    is_player_id(s, c.0) || is_player_id(s, c.1)
}

/// Whether any of the tick's collision events names a live player.
pub open spec fn any_player_collision(s: Seq<Entity>, evs: Seq<Collision>) -> bool {
    exists|k: int| 0 <= k < evs.len() && names_player(s, #[trigger] evs[k])
}

/// On any collision pair naming the player, the session transitions to
/// the menu; the player entity itself is not destroyed here.
pub fn kill_player(reg: &Registry, colls: &Vec<Collision>, state: &mut AppState)
    requires
        reg.wf(),
    ensures
        *final(state) == if any_player_collision(reg.entities@, colls@) {
            AppState::Menu
        } else {
            *old(state)
        },
{
    let n = colls.len();
    let mut k: usize = 0;
    let mut hit = false;
    while k < n
        invariant
            k <= n,
            n == colls@.len(),
            reg.wf(),
            hit == any_player_collision(reg.entities@, colls@.take(k as int)),
            *state == *old(state),
        decreases n - k,
    {
        let c = colls[k];
        proof {
            assert(colls@.take(k + 1).drop_last() =~= colls@.take(k as int));
            assert(colls@.take(k + 1).last() == c);
        }
        let side0 = player_side(reg, c.0);
        let side1 = player_side(reg, c.1);
        if side0 || side1 {
            proof {
                assert(names_player(reg.entities@, colls@[k as int]));
            }
            hit = true;
        }
        proof {
            assert(any_player_collision(reg.entities@, colls@.take(k + 1)) == (
            any_player_collision(reg.entities@, colls@.take(k as int)) || names_player(
                reg.entities@,
                colls@[k as int],
            )));
        }
        k = k + 1;
    }
    proof {
        assert(colls@.take(n as int) =~= colls@);
    }
    if hit {
        *state = AppState::Menu;
    }
}

/// Whether the id denotes a live player.
fn player_side(reg: &Registry, id: u64) -> (r: bool)
    requires
        reg.wf(),
    ensures
        r == is_player_id(reg.entities@, id),
{
    match reg.find(id) {
        Some(i) => {
            proof {
                lemma_index_of_unique(reg.entities@, i as int, id);
            }
            match reg.entities[i].kind {
                Kind::Player(_) => true,
                _ => false,
            }
        },
        None => false,
    }
}

/// The entities kept at session teardown: the player destroyed.
pub open spec fn non_players(s: Seq<Entity>) -> Seq<Entity>
    decreases s.len(),
{
    if s.len() == 0 {
        Seq::empty()
    } else {
        let rest = non_players(s.drop_last());
        if is_player(s.last()) {
            rest
        } else {
            rest.push(s.last())
        }
    }
}

/// Destroys the player entity on leaving active play.
pub fn despawn_player(reg: &mut Registry)
    requires
        old(reg).wf(),
    ensures
        final(reg).wf(),
        final(reg).next_id == old(reg).next_id,
        final(reg).entities@ == non_players(old(reg).entities@),
{
    let ghost s = old(reg).entities@;
    let ghost n0 = old(reg).next_id;
    let ghost mut j: int = 0;
    let mut i: usize = 0;
    while i < reg.entities.len()
        invariant
            reg.wf(),
            reg.next_id == n0,
            0 <= j <= s.len(),
            i == non_players(s.take(j)).len(),
            reg.entities@ == non_players(s.take(j)) + s.skip(j),
        decreases s.len() - j,
    {
        proof {
            assert(j < s.len());
            assert(s.skip(j)[0] == s[j]);
        }
        let e = reg.entities[i];
        assert(e == s[j]);
        let ghost done = non_players(s.take(j));
        proof {
            assert(s.take(j + 1).drop_last() =~= s.take(j));
            assert(s.take(j + 1).last() == s[j]);
        }
        match e.kind {
            Kind::Player(_) => {
                reg.remove_at(i);
                proof {
                    assert(reg.entities@ =~= done + s.skip(j + 1));
                    j = j + 1;
                }
            },
            _ => {
                proof {
                    assert(reg.entities@ =~= done.push(e) + s.skip(j + 1));
                    j = j + 1;
                }
                i = i + 1;
            },
        }
    }
    proof {
        assert(j == s.len());
        assert(s.take(j) =~= s);
        assert(reg.entities@ =~= non_players(s));
    }
}

} // verus!
