//! The enemy formation: wave spawning with the fire-permission ladder,
//! lock-step movement, shooting cadence, collision reaction, and the round
//! lifecycle.

use vstd::arithmetic::div_mod::lemma_fundamental_div_mod_converse;
use vstd::pervasive::VecAdditionalExecFns;
use vstd::prelude::*;

use crate::bullets::{Bullet, SpawnBulletEvent};
use crate::collisions::{Aabb, Collision, Vec2};
use crate::world::{
    attrs_bounded, contains_id, ent_by_id, geom_bounded, iabs, ids_unique, index_of_id, is_enemy,
    lemma_index_of_unique, lemma_remove_id, Entity, Kind, Registry, MAX_DT, MAX_WIN,
};
use crate::AppState;

verus! {

/// An enemy attribute record: a weak back-reference to a neighbour in its
/// spawn column, and the fire-permission flag. An enemy holding fire never
/// advances its shoot cycle and never spawns projectiles.
#[derive(Clone, Copy, Debug, PartialEq, Eq, Structural)]
pub struct Enemy {
    pub enemy_above: Option<u64>,
    pub hold_fire: bool,
}

/// An enemy's shooting cadence: a countdown `timer` and the `reset`
/// interval it returns to after firing, both in milliseconds; randomized
/// per spawn to desynchronize fire.
#[derive(Clone, Copy, Debug, PartialEq, Eq, Structural)]
pub struct ShootCycle {
    pub timer: i64,
    pub reset: i64,
}

/// A zero-payload signal that the active wave has zero remaining enemies.
/// Edge-triggered: emitted once per transition to an empty population.
#[derive(Clone, Copy, Debug, PartialEq, Eq, Structural)]
pub struct RoundOver;

/// Wave configuration: formation row and column counts, the anchor point
/// the formation is centered on, and the current round number.
#[derive(Clone, Copy, Debug, PartialEq, Eq, Structural)]
pub struct SpawnEnemies {
    pub rows: i64,
    pub cols: i64,
    pub center: Vec2,
    pub round: i64,
}

impl SpawnEnemies {
    /// The configuration a session starts with.
    pub open spec fn initial() -> SpawnEnemies {
        SpawnEnemies { rows: 1, cols: 4, center: Vec2 { x: 0, y: 250 }, round: 1 }
    }
}

impl Default for SpawnEnemies {
    fn default() -> (r: Self)
        ensures
            r == SpawnEnemies::initial(),
    {
        SpawnEnemies { rows: 1, cols: 4, center: Vec2 { x: 0, y: 250 }, round: 1 }
    }
}

/// Formation movement state: the current horizontal direction (1 or -1),
/// the horizontal step, the descent step, and whether the direction was
/// flipped on the previous movement tick.
#[derive(Clone, Copy, Debug, PartialEq, Eq, Structural)]
pub struct EnemyControl {
    pub dir: i64,
    pub step: i64,
    pub y_step: i64,
    pub just_switched: bool,
}

impl EnemyControl {
    pub open spec fn initial() -> EnemyControl {
        EnemyControl { dir: 1, step: 10, y_step: 20, just_switched: false }
    }
}

impl Default for EnemyControl {
    fn default() -> (r: Self)
        ensures
            r == EnemyControl::initial(),
    {
        EnemyControl { dir: 1, step: 10, y_step: 20, just_switched: false }
    }
}

/// Whether any live entity is an enemy.
pub open spec fn has_enemies(s: Seq<Entity>) -> bool {
    exists|i: int| 0 <= i < s.len() && is_enemy(s[i])
}

fn any_enemies(reg: &Registry) -> (r: bool)
    ensures
        r == has_enemies(reg.entities@),
{
    let n = reg.entities.len();
    let mut i: usize = 0;
    while i < n
        invariant
            i <= n,
            n == reg.entities@.len(),
            forall|j: int| 0 <= j < i ==> !is_enemy(reg.entities@[j]),
        decreases n - i,
    {
        let found = match reg.entities[i].kind {
            crate::world::Kind::Enemy(_, _) => true,
            _ => false,
        };
        if found {
            return true;
        }
        i = i + 1;
    }
    false
}

/// Whether the round-over detector emits on a tick that sees the given
/// population, starting from the given "round in progress" flag.
pub open spec fn round_over_emits(in_progress: bool, populated: bool) -> bool {
    in_progress && !populated
}

/// The "round in progress" flag after such a tick.
pub open spec fn round_over_next(in_progress: bool, populated: bool) -> bool {
    if in_progress && !populated {
        false
    } else if !in_progress && populated {
        true
    } else {
        in_progress
    }
}

/// Round-over detection, edge-triggered on the enemy population
/// transitioning from non-empty to empty. The flag starts true at session
/// start, so a first tick with no enemies emits the initial round-over.
pub fn round_over(reg: &Registry, round_in_progress: &mut bool) -> (emitted: bool)
    ensures
        emitted == round_over_emits(*old(round_in_progress), has_enemies(reg.entities@)),
        *final(round_in_progress) == round_over_next(
            *old(round_in_progress),
            has_enemies(reg.entities@),
        ),
{
    let populated = any_enemies(reg);
    if *round_in_progress && !populated {
        *round_in_progress = false;
        true
    } else {
        if !*round_in_progress && populated {
            *round_in_progress = true;
        }
        false
    }
}

/// Whether the id currently denotes a live enemy entity.
pub open spec fn is_enemy_id(s: Seq<Entity>, id: u64) -> bool {
    contains_id(s, id) && is_enemy(ent_by_id(s, id))
}

/// The weak back-reference an enemy carries, absent on any other kind.
pub open spec fn enemy_above_of(e: Entity) -> Option<u64> {
    match e.kind {
        Kind::Enemy(en, _) => en.enemy_above,
        _ => None,
    }
}

/// Whether an enemy is holding fire; false on any other kind.
pub open spec fn holds_fire(e: Entity) -> bool {
    match e.kind {
        Kind::Enemy(en, _) => en.hold_fire,
        _ => false,
    }
}

/// The same enemy with fire permission granted; every other attribute,
/// the back-reference and the shoot cycle included, is kept.
pub open spec fn fire_released(e: Entity) -> Entity {
    match e.kind {
        Kind::Enemy(en, cy) => Entity {
            id: e.id,
            pos: e.pos,
            aabb: e.aabb,
            color: e.color,
            kind: Kind::Enemy(Enemy { enemy_above: en.enemy_above, hold_fire: false }, cy),
        },
        _ => e,
    }
}

/// Destroying one enemy: if its back-reference denotes a live enemy, that
/// enemy's fire-held flag is cleared first (promoting it to the active
/// shooter of its column); a stale or absent reference is a no-op. Then
/// the enemy itself is removed.
pub open spec fn kill_enemy(s: Seq<Entity>, id: u64) -> Seq<Entity>
    recommends
        is_enemy_id(s, id),
{
    let i = index_of_id(s, id);
    let s1 = match enemy_above_of(s[i]) {
        Some(a) => if is_enemy_id(s, a) {
            s.update(index_of_id(s, a), fire_released(s[index_of_id(s, a)]))
        } else {
            s
        },
        None => s,
    };
    s1.remove(index_of_id(s1, id))
}

/// The reaction to one collision event: the first side that is a live
/// enemy is destroyed (with the fire-permission cascade); a pair without
/// a live enemy prompts no action.
pub open spec fn enemies_step(s: Seq<Entity>, c: Collision) -> Seq<Entity> {
    if is_enemy_id(s, c.0) {
        kill_enemy(s, c.0)
    } else if is_enemy_id(s, c.1) {
        kill_enemy(s, c.1)
    } else {
        s
    }
}

/// The reaction to a whole tick's collision events, applied in order; a
/// side destroyed by an earlier event of the same tick reports absent.
pub open spec fn enemies_react(s: Seq<Entity>, evs: Seq<Collision>) -> Seq<Entity>
    decreases evs.len(),
{
    if evs.len() == 0 {
        s
    } else {
        enemies_react(enemies_step(s, evs.first()), evs.drop_first())
    }
}

/// Destroys the enemy standing at a known index, clearing the fire-held
/// flag of the enemy its back-reference denotes, if that one is live.
fn kill_one(reg: &mut Registry, i: usize)
    requires
        old(reg).wf(),
        i < old(reg).entities@.len(),
        is_enemy(old(reg).entities@[i as int]),
    ensures
        final(reg).wf(),
        final(reg).next_id == old(reg).next_id,
        final(reg).entities@ == kill_enemy(old(reg).entities@, old(reg).entities@[i as int].id),
{
    let ghost pre = old(reg).entities@;
    let e = reg.entities[i];
    let ghost id = e.id;
    proof {
        lemma_index_of_unique(pre, i as int, e.id);
    }
    let above = match e.kind {
        Kind::Enemy(en, _) => en.enemy_above,
        _ => None,
    };
    if let Some(a) = above {
        match reg.find(a) {
            Some(ai) => {
                let ae = reg.entities[ai];
                proof {
                    lemma_index_of_unique(pre, ai as int, a);
                }
                match ae.kind {
                    Kind::Enemy(en2, cy2) => {
                        let rel = Entity {
                            id: ae.id,
                            pos: ae.pos,
                            aabb: ae.aabb,
                            color: ae.color,
                            kind: Kind::Enemy(
                                Enemy { enemy_above: en2.enemy_above, hold_fire: false },
                                cy2,
                            ),
                        };
                        proof {
                            assert(rel == fire_released(pre[ai as int]));
                        }
                        reg.replace_at(ai, rel);
                    },
                    _ => {},
                }
            },
            None => {},
        }
    }
    let ghost s1 = reg.entities@;
    proof {
        assert(s1.len() == pre.len());
        assert(s1[i as int].id == id);
        assert(forall|k: int| 0 <= k < s1.len() ==> s1[k].id == pre[k].id);
        assert(ids_unique(s1));
        lemma_index_of_unique(s1, i as int, id);
    }
    reg.remove_at(i);
}

/// Destroys, for each collision event of the tick, the first side that is
/// a live enemy, promoting the enemy its back-reference denotes.
pub fn kill_on_collision(reg: &mut Registry, colls: &Vec<Collision>)
    requires
        old(reg).wf(),
    ensures
        final(reg).wf(),
        final(reg).next_id == old(reg).next_id,
        final(reg).entities@ == enemies_react(old(reg).entities@, colls@),
{
    let ghost s0 = old(reg).entities@;
    let ghost n0 = old(reg).next_id;
    proof {
        assert(colls@.skip(0) =~= colls@);
    }
    let n = colls.len();
    let mut k: usize = 0;
    while k < n
        invariant
            k <= n,
            n == colls@.len(),
            reg.wf(),
            reg.next_id == n0,
            enemies_react(s0, colls@) == enemies_react(reg.entities@, colls@.skip(k as int)),
        decreases n - k,
    {
        let c = colls[k];
        proof {
            assert(colls@.skip(k as int).first() == c);
            assert(colls@.skip(k as int).drop_first() =~= colls@.skip(k + 1));
        }
        let ghost pre = reg.entities@;
        let (e0, i0) = enemy_side(reg, c.0);
        if e0 {
            kill_one(reg, i0);
        } else {
            let (e1, i1) = enemy_side(reg, c.1);
            if e1 {
                kill_one(reg, i1);
            }
        }
        proof {
            assert(reg.entities@ == enemies_step(pre, c));
        }
        k = k + 1;
    }
    proof {
        assert(colls@.skip(n as int) =~= Seq::<Collision>::empty());
    }
}

/// Classifies one side of a collision pair: whether the id is a live
/// enemy, and at which index it stands.
fn enemy_side(reg: &Registry, id: u64) -> (r: (bool, usize))
    requires
        reg.wf(),
    ensures
        r.0 == is_enemy_id(reg.entities@, id),
        r.0 ==> r.1 < reg.entities@.len() && reg.entities@[r.1 as int].id == id && is_enemy(
            reg.entities@[r.1 as int],
        ),
{
    match reg.find(id) {
        Some(i) => {
            proof {
                lemma_index_of_unique(reg.entities@, i as int, id);
            }
            let ise = match reg.entities[i].kind {
                Kind::Enemy(_, _) => true,
                _ => false,
            };
            (ise, i)
        },
        None => (false, 0),
    }
}

/// After an enemy carrying a back-reference to a live enemy is destroyed,
/// the referenced enemy's fire-held flag is false on the same tick, its
/// other attributes are untouched, the destroyed id reports absent, and
/// every entity other than the two is retained unchanged.
pub proof fn lemma_fire_promotion(s: Seq<Entity>, id: u64, a: u64)
    requires
        ids_unique(s),
        is_enemy_id(s, id),
        enemy_above_of(ent_by_id(s, id)) == Some(a),
        a != id,
        is_enemy_id(s, a),
    ensures
        !contains_id(kill_enemy(s, id), id),
        is_enemy_id(kill_enemy(s, id), a),
        !holds_fire(ent_by_id(kill_enemy(s, id), a)),
        ent_by_id(kill_enemy(s, id), a) == fire_released(ent_by_id(s, a)),
        forall|x: u64| x != id ==> (contains_id(kill_enemy(s, id), x) <==> contains_id(s, x)),
        forall|x: u64|
            x != id && x != a && contains_id(s, x) ==> ent_by_id(kill_enemy(s, id), x)
                == ent_by_id(s, x),
{
    let i = index_of_id(s, id);
    assert(0 <= i < s.len() && s[i].id == id);
    let ai = index_of_id(s, a);
    assert(0 <= ai < s.len() && s[ai].id == a);
    assert(ai != i);
    let s1 = s.update(ai, fire_released(s[ai]));
    assert(forall|k: int| 0 <= k < s1.len() ==> s1[k].id == s[k].id);
    assert(ids_unique(s1));
    lemma_index_of_unique(s1, i, id);
    assert(kill_enemy(s, id) == s1.remove(i));
    lemma_remove_id(s1, id);
    lemma_index_of_unique(s1, ai, a);
    assert(ent_by_id(s1, a) == fire_released(s[ai]));
    lemma_index_of_unique(s, ai, a);
    assert forall|x: u64| x != id && contains_id(s, x) implies contains_id(s1, x) by {
        let ix = index_of_id(s, x);
        assert(s1[ix].id == x);
    }
    assert forall|x: u64| x != id && contains_id(s1, x) implies contains_id(s, x) by {
        let ix = index_of_id(s1, x);
        assert(s[ix].id == x);
    }
    assert forall|x: u64| x != id && x != a && contains_id(s, x) implies ent_by_id(
        kill_enemy(s, id),
        x,
    ) == ent_by_id(s, x) by {
        let ix = index_of_id(s, x);
        assert(0 <= ix < s.len() && s[ix].id == x);
        assert(ix != ai);
        assert(s1[ix] == s[ix]);
        lemma_index_of_unique(s1, ix, x);
        lemma_index_of_unique(s, ix, x);
    }
}

/// Round-over fires exactly once per transition to an empty population:
/// after the tick that emitted it, further ticks that still see an empty
/// population emit nothing.
pub proof fn lemma_round_over_fires_once(in_progress: bool)
    ensures
        !round_over_emits(round_over_next(in_progress, false), false),
{
}

/// A repopulated wave re-arms the detector: after any tick that sees
/// enemies, the flag is set, so a later empty tick emits again.
pub proof fn lemma_round_over_rearms(in_progress: bool)
    ensures
        round_over_next(in_progress, true),
{
}

/// An enemy shifted horizontally by `dx`; any other entity is untouched.
pub open spec fn moved_sideways(e: Entity, dx: int) -> Entity {
    if is_enemy(e) {
        Entity {
            id: e.id,
            pos: Vec2 { x: (e.pos.x + dx) as i64, y: e.pos.y },
            aabb: e.aabb,
            color: e.color,
            kind: e.kind,
        }
    } else {
        e
    }
}

/// An enemy stepped down by `dy`; any other entity is untouched.
pub open spec fn moved_down(e: Entity, dy: int) -> Entity {
    if is_enemy(e) {
        Entity {
            id: e.id,
            pos: Vec2 { x: e.pos.x, y: (e.pos.y - dy) as i64 },
            aabb: e.aabb,
            color: e.color,
            kind: e.kind,
        }
    } else {
        e
    }
}

/// Whether, once this enemy has taken this tick's horizontal step `dx`,
/// its next prospective step would reach 40% of the play-field half-width.
pub open spec fn needs_switch(e: Entity, dx: int, w: int) -> bool {
    is_enemy(e) && 5 * iabs(e.pos.x + 2 * dx) >= 2 * w
}

/// Whether this enemy's position after stepping down by `dy` is at or
/// below 40% of the play-field half-height: the loss condition.
pub open spec fn hits_floor(e: Entity, dy: int, h: int) -> bool {
    is_enemy(e) && 5 * (e.pos.y - dy) <= -2 * h
}

/// Lock-step formation movement, run on its own fixed cadence. On an
/// ordinary tick every enemy moves horizontally, and the direction flips
/// (taking effect next tick) once any enemy's next prospective position
/// would cross 40% of the play-field half-width. On the tick after a
/// flip, every enemy instead steps down; if one reaches 40% of the
/// half-height the session transitions to the menu at once, the enemies
/// after it in registry order staying unmoved for the aborted tick.
#[verifier::loop_isolation(false)]
pub fn enemy_movement(
    reg: &mut Registry,
    ctl: &mut EnemyControl,
    state: &mut AppState,
    win_w: i64,
    win_h: i64,
) -> (game_over: bool)
    requires
        old(reg).wf(),
        old(reg).geom_ok(),
        old(ctl).dir == 1 || old(ctl).dir == -1,
        0 <= old(ctl).step <= 1000,
        0 <= old(ctl).y_step <= 1000,
        0 <= win_w <= MAX_WIN,
        0 <= win_h <= MAX_WIN,
    ensures
        final(reg).wf(),
        final(reg).next_id == old(reg).next_id,
        !old(ctl).just_switched ==> {
            let s = old(reg).entities@;
            let dx = old(ctl).dir * old(ctl).step;
            &&& final(reg).entities@ == s.map_values(|e: Entity| moved_sideways(e, dx))
            &&& !game_over
            &&& *final(state) == *old(state)
            &&& *final(ctl) == if exists|k: int|
                0 <= k < s.len() && needs_switch(#[trigger] s[k], dx, win_w as int) {
                EnemyControl {
                    dir: (-(old(ctl).dir as int)) as i64,
                    step: old(ctl).step,
                    y_step: old(ctl).y_step,
                    just_switched: true,
                }
            } else {
                *old(ctl)
            }
        },
        old(ctl).just_switched ==> {
            let s = old(reg).entities@;
            let dy = old(ctl).y_step as int;
            &&& *final(ctl) == EnemyControl {
                dir: old(ctl).dir,
                step: old(ctl).step,
                y_step: old(ctl).y_step,
                just_switched: false,
            }
            &&& game_over ==> exists|j0: int|
                {
                    &&& 0 <= j0 < s.len()
                    &&& #[trigger] hits_floor(s[j0], dy, win_h as int)
                    &&& forall|k: int| 0 <= k < j0 ==> !hits_floor(#[trigger] s[k], dy, win_h as int)
                    &&& final(reg).entities@ == Seq::new(
                        s.len(),
                        |k: int|
                            if k <= j0 {
                                moved_down(s[k], dy)
                            } else {
                                s[k]
                            },
                    )
                }
            &&& game_over ==> *final(state) == AppState::Menu
            &&& !game_over ==> {
                &&& final(reg).entities@ == s.map_values(|e: Entity| moved_down(e, dy))
                &&& forall|k: int| 0 <= k < s.len() ==> !hits_floor(#[trigger] s[k], dy, win_h as int)
                &&& *final(state) == *old(state)
            }
        },
{
    let ghost s = old(reg).entities@;
    let ghost n0 = old(reg).next_id;
    let n = reg.entities.len();
    if !ctl.just_switched {
        let dx: i64 = ctl.dir * ctl.step;
        let mut switch = false;
        let mut i: usize = 0;
        while i < n
            invariant
                i <= n,
                n == s.len(),
                reg.wf(),
                reg.next_id == n0,
                reg.entities@.len() == n,
                ctl.dir == 1 || ctl.dir == -1,
                0 <= ctl.step <= 1000,
                dx == ctl.dir * ctl.step,
                0 <= win_w <= MAX_WIN,
                forall|k: int| 0 <= k < s.len() ==> geom_bounded(#[trigger] s[k]),
                forall|k: int| 0 <= k < i ==> reg.entities@[k] == moved_sideways(#[trigger] s[k], dx as int),
                forall|k: int| i <= k < n ==> reg.entities@[k] == #[trigger] s[k],
                switch == exists|k: int|
                    0 <= k < i && needs_switch(#[trigger] s[k], dx as int, win_w as int),
            decreases n - i,
        {
            let e = reg.entities[i];
            assert(e == s[i as int]);
            match e.kind {
                Kind::Enemy(_, _) => {
                    let nx: i64 = e.pos.x + dx;
                    let moved = Entity {
                        id: e.id,
                        pos: Vec2 { x: nx, y: e.pos.y },
                        aabb: e.aabb,
                        color: e.color,
                        kind: e.kind,
                    };
                    reg.replace_at(i, moved);
                    let prospective: i64 = nx + dx;
                    let mag: i64 = if prospective >= 0 {
                        prospective
                    } else {
                        -prospective
                    };
                    if !switch && 5 * mag >= 2 * win_w {
                        switch = true;
                        proof {
                            assert(needs_switch(s[i as int], dx as int, win_w as int));
                        }
                    }
                },
                _ => {
                    proof {
                        assert(moved_sideways(s[i as int], dx as int) == e);
                    }
                },
            }
            i = i + 1;
        }
        if switch {
            ctl.just_switched = true;
            ctl.dir = -ctl.dir;
        }
        proof {
            assert(reg.entities@ =~= s.map_values(|e: Entity| moved_sideways(e, dx as int)));
        }
        false
    } else {
        ctl.just_switched = false;
        let dy: i64 = ctl.y_step;
        let mut i: usize = 0;
        while i < n
            invariant
                i <= n,
                n == s.len(),
                reg.wf(),
                reg.next_id == n0,
                reg.entities@.len() == n,
                0 <= dy <= 1000,
                0 <= win_h <= MAX_WIN,
                forall|k: int| 0 <= k < s.len() ==> geom_bounded(#[trigger] s[k]),
                forall|k: int|
                    0 <= k < i ==> reg.entities@[k] == moved_down(#[trigger] s[k], dy as int)
                        && !hits_floor(s[k], dy as int, win_h as int),
                forall|k: int| i <= k < n ==> reg.entities@[k] == #[trigger] s[k],
                *state == *old(state),
            decreases n - i,
        {
            let e = reg.entities[i];
            assert(e == s[i as int]);
            match e.kind {
                Kind::Enemy(_, _) => {
                    let ny: i64 = e.pos.y - dy;
                    let moved = Entity {
                        id: e.id,
                        pos: Vec2 { x: e.pos.x, y: ny },
                        aabb: e.aabb,
                        color: e.color,
                        kind: e.kind,
                    };
                    reg.replace_at(i, moved);
                    if 5 * ny + 2 * win_h <= 0 {
                        *state = AppState::Menu;
                        proof {
                            assert(hits_floor(s[i as int], dy as int, win_h as int));
                            assert(reg.entities@ =~= Seq::new(
                                s.len(),
                                |k: int|
                                    if k <= i {
                                        moved_down(s[k], dy as int)
                                    } else {
                                        s[k]
                                    },
                            ));
                        }
                        return true;
                    }
                },
                _ => {
                    proof {
                        assert(moved_down(s[i as int], dy as int) == e);
                        assert(!hits_floor(s[i as int], dy as int, win_h as int));
                    }
                },
            }
            i = i + 1;
        }
        proof {
            assert(reg.entities@ =~= s.map_values(|e: Entity| moved_down(e, dy as int)));
        }
        false
    }
}

/// Relies on rand::Rng::gen_range on the thread-local generator: it
/// returns a value of the given non-empty range, drawn uniformly; it
/// panics on an empty range, which the contract rules out.
#[verifier::external_body]
fn rand_in_range(lo: u64, hi: u64) -> (r: u64)
    requires
        lo < hi,
    ensures
        lo <= r < hi,
{
    rand::Rng::gen_range(&mut rand::thread_rng(), lo..hi)
}

/// How many enemies one wave spawns.
pub open spec fn wave_total(cfg: SpawnEnemies) -> int {
    cfg.rows * cfg.cols
}

/// World position of the wave's m-th spawned enemy. Enemies are placed on
/// a grid of 20-unit cells with 20-unit spacing whose footprint is
/// centered on the configured anchor; the first spawned row is the top of
/// the formation and the bottom row spawns last, column by column.
pub open spec fn wave_pos(cfg: SpawnEnemies, m: int) -> Vec2 {
    let i = m / (cfg.cols as int);
    let k = m % (cfg.cols as int);
    let r = cfg.rows - 1 - i;
    Vec2 {
        x: (cfg.center.x - (20 * cfg.cols - 10) + 40 * k) as i64,
        y: (cfg.center.y - (20 * cfg.rows - 10) + 40 * r) as i64,
    }
}

/// What holds of the m-th spawned enemy while the wave is `upto` entities
/// in: every enemy above a spawned neighbour already references it and
/// holds fire; the most recently spawned enemy of each column does not.
pub open spec fn wave_entity_mid(
    e: Entity,
    cfg: SpawnEnemies,
    base: u64,
    q: int,
    upto: int,
    color: u64,
) -> bool {
    &&& e.id == (base + q) as u64
    &&& e.pos == wave_pos(cfg, q)
    &&& e.aabb == (Aabb { extents: Vec2 { x: 10, y: 10 } })
    &&& e.color == color
    &&& match e.kind {
        Kind::Enemy(en, cy) => {
            &&& 0 <= cy.timer < 10_000
            &&& 3_000 <= cy.reset < 18_000
            &&& en == if q + cfg.cols < upto {
                Enemy { enemy_above: Some((base + q + cfg.cols) as u64), hold_fire: true }
            } else {
                Enemy { enemy_above: None, hold_fire: false }
            }
        },
        _ => false,
    }
}

/// What holds of the m-th enemy once the whole wave stands: exactly the
/// bottom row is free to fire, and everyone else holds fire and carries a
/// reference to the enemy of the same column one row below.
pub open spec fn wave_entity_ok(
    e: Entity,
    cfg: SpawnEnemies,
    base: u64,
    q: int,
    color: u64,
) -> bool {
    wave_entity_mid(e, cfg, base, q, wave_total(cfg), color)
}

/// What holds of the block of entities one wave appends.
pub open spec fn wave_block(block: Seq<Entity>, cfg: SpawnEnemies, base: u64, color: u64) -> bool {
    &&& block.len() == wave_total(cfg)
    &&& forall|q: int|
        0 <= q < wave_total(cfg) ==> wave_entity_ok(#[trigger] block[q], cfg, base, q, color)
}

/// The configuration after a wave: the next wave is one row and one
/// column larger, and the round number is incremented.
pub open spec fn cfg_next(cfg: SpawnEnemies) -> SpawnEnemies {
    SpawnEnemies {
        rows: (cfg.rows + 1) as i64,
        cols: (cfg.cols + 1) as i64,
        center: cfg.center,
        round: (cfg.round + 1) as i64,
    }
}

/// Configuration bounds under which the wave arithmetic stays in range.
pub open spec fn cfg_bounded(cfg: SpawnEnemies) -> bool {
    &&& 1 <= cfg.rows <= 1000
    &&& 1 <= cfg.cols <= 1000
    &&& -1_000_000 <= cfg.center.x <= 1_000_000
    &&& -1_000_000 <= cfg.center.y <= 1_000_000
    &&& 1 <= cfg.round < i64::MAX
}

/// Spawns one wave into the formation grid, top row first, each enemy
/// with a freshly randomized shoot cycle (countdown under ten seconds,
/// reset interval of three to eighteen seconds). A per-column table of
/// the most recently spawned entity maintains the fire ladder: when an
/// enemy is placed below a tracked one, the tracked one records the new
/// entity and is forced to hold fire, so exactly the bottom row may fire.
/// Afterwards the configuration grows by one row, one column and one
/// round.
#[verifier::loop_isolation(false)]
pub fn spawn_wave(reg: &mut Registry, spawn: &mut SpawnEnemies, enemy_color: u64)
    requires
        old(reg).wf(),
        cfg_bounded(*old(spawn)),
        old(reg).next_id + wave_total(*old(spawn)) <= u64::MAX,
    ensures
        final(reg).wf(),
        final(reg).next_id == old(reg).next_id + wave_total(*old(spawn)),
        final(reg).entities@.len() == old(reg).entities@.len() + wave_total(*old(spawn)),
        final(reg).entities@.take(old(reg).entities@.len() as int) == old(reg).entities@,
        wave_block(
            final(reg).entities@.skip(old(reg).entities@.len() as int),
            *old(spawn),
            old(reg).next_id,
            enemy_color,
        ),
        *final(spawn) == cfg_next(*old(spawn)),
{
    let ghost cfg0 = *old(spawn);
    let ghost s0 = old(reg).entities@;
    let ghost base = old(reg).next_id;
    let ghost olen = s0.len() as int;
    let rows = spawn.rows;
    let cols = spawn.cols;
    proof {
        assert(1 <= rows * cols <= 1_000_000) by (nonlinear_arith)
            requires
                1 <= rows <= 1000,
                1 <= cols <= 1000,
        ;
    }
    let total: i64 = rows * cols;
    let startx: i64 = spawn.center.x - (20 * cols - 10);
    let starty: i64 = spawn.center.y - (20 * rows - 10);
    let mut row_above: Vec<u64> = Vec::new();
    let mut m: i64 = 0;
    let mut row_i: i64 = 0;
    let mut col_k: i64 = 0;
    while m < total
        invariant
            0 <= m <= total,
            0 <= col_k < cols,
            0 <= row_i <= rows,
            m == row_i * cols + col_k,
            reg.wf(),
            reg.next_id == base + m,
            reg.entities@.len() == olen + m,
            reg.entities@.take(olen) == s0,
            forall|p: int|
                olen <= p < olen + m ==> wave_entity_mid(
                    #[trigger] reg.entities@[p],
                    cfg0,
                    base,
                    p - olen,
                    m as int,
                    enemy_color,
                ),
            row_above@.len() == if row_i == 0 {
                col_k as int
            } else {
                cols as int
            },
            forall|kk: int|
                0 <= kk < col_k ==> #[trigger] row_above@[kk] == (base + row_i * cols + kk) as u64,
            forall|kk: int|
                col_k <= kk < row_above@.len() ==> #[trigger] row_above@[kk] == (base + (row_i - 1)
                    * cols + kk) as u64,
        decreases total - m,
    {
        let r: i64 = rows - 1 - row_i;
        let px: i64 = startx + 40 * col_k;
        let py: i64 = starty + 40 * r;
        let timer = rand_in_range(0, 10_000);
        let reset = rand_in_range(3_000, 18_000);
        let cycle = ShootCycle { timer: timer as i64, reset: reset as i64 };
        let ghost pre = reg.entities@;
        let id = reg.spawn(
            Vec2 { x: px, y: py },
            Aabb { extents: Vec2 { x: 10, y: 10 } },
            enemy_color,
            Kind::Enemy(Enemy { enemy_above: None, hold_fire: false }, cycle),
        );
        proof {
            lemma_fundamental_div_mod_converse(m as int, cols as int, row_i as int, col_k as int);
            assert(reg.entities@[olen + m].pos == wave_pos(cfg0, m as int));
            assert(reg.entities@.take(olen) =~= s0);
        }
        if (col_k as usize) < row_above.len() {
            let above = row_above[col_k as usize];
            proof {
                assert(row_i >= 1);
                assert((row_i - 1) * cols == row_i * cols - cols) by (nonlinear_arith);
                assert(above == (base + (m - cols)) as u64);
                assert(wave_entity_mid(
                    pre[olen + (m - cols)],
                    cfg0,
                    base,
                    (m - cols) as int,
                    m as int,
                    enemy_color,
                ));
                assert(reg.entities@[olen + (m - cols)] == pre[olen + (m - cols)]);
                assert(reg.entities@[olen + (m - cols)].id == above);
                assert(contains_id(reg.entities@, above));
            }
            match reg.find(above) {
                Some(ai) => {
                    let ae = reg.entities[ai];
                    proof {
                        lemma_index_of_unique(reg.entities@, ai as int, above);
                        lemma_index_of_unique(reg.entities@, olen + (m - cols), above);
                        assert(ai as int == olen + (m - cols));
                    }
                    match ae.kind {
                        Kind::Enemy(_, cy2) => {
                            let upd = Entity {
                                id: ae.id,
                                pos: ae.pos,
                                aabb: ae.aabb,
                                color: ae.color,
                                kind: Kind::Enemy(
                                    Enemy { enemy_above: Some(id), hold_fire: true },
                                    cy2,
                                ),
                            };
                            reg.replace_at(ai, upd);
                            proof {
                                assert(reg.entities@.take(olen) =~= s0);
                            }
                        },
                        _ => {
                            proof {
                                assert(false);
                            }
                        },
                    }
                },
                None => {
                    proof {
                        assert(false);
                    }
                },
            }
            row_above.set(col_k as usize, id);
        } else {
            proof {
                assert(row_i == 0);
            }
            row_above.push(id);
        }
        col_k = col_k + 1;
        m = m + 1;
        if col_k == cols {
            col_k = 0;
            row_i = row_i + 1;
            proof {
                assert((row_i) * cols == (row_i - 1) * cols + cols) by (nonlinear_arith);
            }
        }
    }
    proof {
        lemma_fundamental_div_mod_converse(total as int, cols as int, rows as int, 0);
        lemma_fundamental_div_mod_converse(m as int, cols as int, row_i as int, col_k as int);
        assert(row_i == rows && col_k == 0);
        let block = reg.entities@.skip(olen);
        assert forall|q: int| 0 <= q < wave_total(cfg0) implies wave_entity_ok(
            #[trigger] block[q],
            cfg0,
            base,
            q,
            enemy_color,
        ) by {
            assert(block[q] == reg.entities@[olen + q]);
        }
    }
    spawn.rows = rows + 1;
    spawn.cols = cols + 1;
    spawn.round = spawn.round + 1;
}

/// The configuration standing after `n` waves.
pub open spec fn cfg_after(cfg: SpawnEnemies, n: nat) -> SpawnEnemies
    decreases n,
{
    if n == 0 {
        cfg
    } else {
        cfg_after(cfg_next(cfg), (n - 1) as nat)
    }
}

/// How many ids `n` consecutive waves consume.
pub open spec fn waves_ids(cfg: SpawnEnemies, n: nat) -> int
    decreases n,
{
    if n == 0 {
        0
    } else {
        wave_total(cfg) + waves_ids(cfg_next(cfg), (n - 1) as nat)
    }
}

/// What holds of the entities `n` consecutive waves append: one full wave
/// block per round-over event, each against the grown configuration.
pub open spec fn waves_ok(
    newents: Seq<Entity>,
    cfg: SpawnEnemies,
    base: u64,
    n: nat,
    color: u64,
) -> bool
    decreases n,
{
    if n == 0 {
        newents.len() == 0
    } else {
        let w = wave_total(cfg);
        &&& newents.len() >= w
        &&& wave_block(newents.take(w), cfg, base, color)
        &&& waves_ok(newents.skip(w), cfg_next(cfg), (base + w) as u64, (n - 1) as nat, color)
    }
}

proof fn lemma_waves_snoc_defs(cfg: SpawnEnemies, k: nat)
    ensures
        cfg_after(cfg, (k + 1) as nat) == cfg_next(cfg_after(cfg, k)),
        waves_ids(cfg, (k + 1) as nat) == waves_ids(cfg, k) + wave_total(cfg_after(cfg, k)),
    decreases k,
{
    assert(cfg_after(cfg, (k + 1) as nat) == cfg_after(cfg_next(cfg), k));
    assert(waves_ids(cfg, (k + 1) as nat) == wave_total(cfg) + waves_ids(cfg_next(cfg), k));
    if k == 0 {
        assert(cfg_after(cfg_next(cfg), 0) == cfg_next(cfg));
        assert(cfg_after(cfg, 0nat) == cfg);
        assert(waves_ids(cfg_next(cfg), 0) == 0);
        assert(waves_ids(cfg, 0nat) == 0);
    } else {
        lemma_waves_snoc_defs(cfg_next(cfg), (k - 1) as nat);
        assert(cfg_after(cfg, k) == cfg_after(cfg_next(cfg), (k - 1) as nat));
        assert(waves_ids(cfg, k) == wave_total(cfg) + waves_ids(cfg_next(cfg), (k - 1) as nat));
    }
}

proof fn lemma_cfg_after_bounds(cfg: SpawnEnemies, k: nat)
    requires
        cfg_bounded(cfg),
        cfg.rows + k <= 1000,
        cfg.cols + k <= 1000,
        cfg.round + k < i64::MAX,
    ensures
        cfg_bounded(cfg_after(cfg, k)),
        cfg_after(cfg, k).rows == cfg.rows + k,
        cfg_after(cfg, k).cols == cfg.cols + k,
        cfg_after(cfg, k).round == cfg.round + k,
        cfg_after(cfg, k).center == cfg.center,
        0 <= waves_ids(cfg, k) <= 1_000_000 * k,
    decreases k,
{
    if k == 0 {
        assert(cfg_after(cfg, 0nat) == cfg);
        assert(waves_ids(cfg, 0nat) == 0);
    } else {
        assert(cfg_next(cfg).rows == cfg.rows + 1);
        assert(cfg_next(cfg).cols == cfg.cols + 1);
        assert(cfg_next(cfg).round == cfg.round + 1);
        assert(cfg_bounded(cfg_next(cfg)));
        lemma_cfg_after_bounds(cfg_next(cfg), (k - 1) as nat);
        assert(cfg_after(cfg, k) == cfg_after(cfg_next(cfg), (k - 1) as nat));
        assert(waves_ids(cfg, k) == wave_total(cfg) + waves_ids(cfg_next(cfg), (k - 1) as nat));
        assert(0 <= cfg.rows * cfg.cols <= 1_000_000) by (nonlinear_arith)
            requires
                1 <= cfg.rows <= 1000,
                1 <= cfg.cols <= 1000,
        ;
        assert(0 <= wave_total(cfg) <= 1_000_000);
    }
}

proof fn lemma_waves_ok_len(x: Seq<Entity>, cfg: SpawnEnemies, base: u64, n: nat, color: u64)
    requires
        waves_ok(x, cfg, base, n, color),
    ensures
        x.len() == waves_ids(cfg, n),
    decreases n,
{
    if n > 0 {
        lemma_waves_ok_len(
            x.skip(wave_total(cfg)),
            cfg_next(cfg),
            (base + wave_total(cfg)) as u64,
            (n - 1) as nat,
            color,
        );
    }
}

proof fn lemma_waves_ok_snoc(
    x: Seq<Entity>,
    y: Seq<Entity>,
    cfg: SpawnEnemies,
    base: u64,
    k: nat,
    color: u64,
)
    requires
        waves_ok(x, cfg, base, k, color),
        wave_block(y, cfg_after(cfg, k), (base + waves_ids(cfg, k)) as u64, color),
        cfg_bounded(cfg),
        cfg.rows + k + 1 <= 1000,
        cfg.cols + k + 1 <= 1000,
        cfg.round + k + 1 < i64::MAX,
        base + waves_ids(cfg, (k + 1) as nat) <= u64::MAX,
    ensures
        waves_ok(x + y, cfg, base, (k + 1) as nat, color),
    decreases k,
{
    let w = wave_total(cfg);
    lemma_cfg_after_bounds(cfg, k);
    lemma_cfg_after_bounds(cfg, (k + 1) as nat);
    lemma_waves_snoc_defs(cfg, k);
    assert(0 <= cfg.rows * cfg.cols) by (nonlinear_arith)
        requires
            1 <= cfg.rows,
            1 <= cfg.cols,
    ;
    assert(0 <= w);
    if k == 0 {
        assert(cfg_after(cfg, 0nat) == cfg);
        assert(waves_ids(cfg, 0nat) == 0);
        assert(x.len() == 0);
        assert(x + y =~= y);
        assert(y.len() == w);
        assert(y.take(w) =~= y);
        assert(y.skip(w) =~= Seq::<Entity>::empty());
        assert(waves_ok(y.skip(w), cfg_next(cfg), (base + w) as u64, 0nat, color));
        assert(waves_ok(x + y, cfg, base, 1nat, color));
    } else {
        lemma_waves_ok_len(x, cfg, base, k, color);
        assert((x + y).take(w) =~= x.take(w));
        assert((x + y).skip(w) =~= x.skip(w) + y);
        assert(cfg_after(cfg, k) == cfg_after(cfg_next(cfg), (k - 1) as nat));
        assert(waves_ids(cfg, k) == w + waves_ids(cfg_next(cfg), (k - 1) as nat));
        assert(waves_ids(cfg, (k + 1) as nat) == w + waves_ids(cfg_next(cfg), k));
        lemma_waves_ok_snoc(
            x.skip(w),
            y,
            cfg_next(cfg),
            (base + w) as u64,
            (k - 1) as nat,
            color,
        );
        assert(waves_ok(x + y, cfg, base, (k + 1) as nat, color));
    }
}

/// Spawns one full wave per round-over event received this tick, each
/// against the configuration the previous wave left behind.
#[verifier::loop_isolation(false)]
pub fn spawn_enemies_on_event(
    reg: &mut Registry,
    spawn: &mut SpawnEnemies,
    round_over_events: &Vec<RoundOver>,
    enemy_color: u64,
)
    requires
        old(reg).wf(),
        cfg_bounded(*old(spawn)),
        old(spawn).rows + round_over_events@.len() <= 1000,
        old(spawn).cols + round_over_events@.len() <= 1000,
        old(spawn).round + round_over_events@.len() < i64::MAX,
        old(reg).next_id + 1_000_000 * round_over_events@.len() <= u64::MAX,
    ensures
        final(reg).wf(),
        final(reg).next_id == old(reg).next_id + waves_ids(
            *old(spawn),
            round_over_events@.len() as nat,
        ),
        final(reg).entities@.len() == old(reg).entities@.len() + waves_ids(
            *old(spawn),
            round_over_events@.len() as nat,
        ),
        final(reg).entities@.take(old(reg).entities@.len() as int) == old(reg).entities@,
        waves_ok(
            final(reg).entities@.skip(old(reg).entities@.len() as int),
            *old(spawn),
            old(reg).next_id,
            round_over_events@.len() as nat,
            enemy_color,
        ),
        *final(spawn) == cfg_after(*old(spawn), round_over_events@.len() as nat),
{
    let ghost cfg0 = *old(spawn);
    let ghost s0 = old(reg).entities@;
    let ghost base = old(reg).next_id;
    let ghost olen = s0.len() as int;
    let n = round_over_events.len();
    let mut k: usize = 0;
    proof {
        assert(s0.skip(olen) =~= Seq::<Entity>::empty());
        assert(s0.take(olen) =~= s0);
    }
    while k < n
        invariant
            k <= n,
            reg.wf(),
            *spawn == cfg_after(cfg0, k as nat),
            reg.next_id == base + waves_ids(cfg0, k as nat),
            reg.entities@.len() == olen + waves_ids(cfg0, k as nat),
            reg.entities@.take(olen) == s0,
            waves_ok(reg.entities@.skip(olen), cfg0, base, k as nat, enemy_color),
        decreases n - k,
    {
        proof {
            lemma_cfg_after_bounds(cfg0, k as nat);
            lemma_cfg_after_bounds(cfg0, n as nat);
            assert(0 <= wave_total(*spawn) <= 1_000_000) by (nonlinear_arith)
                requires
                    1 <= spawn.rows <= 1000,
                    1 <= spawn.cols <= 1000,
            ;
            lemma_waves_snoc_defs(cfg0, k as nat);
            lemma_cfg_after_bounds(cfg0, (k + 1) as nat);
        }
        let ghost pre = reg.entities@;
        let ghost cfg_k = *spawn;
        spawn_wave(reg, spawn, enemy_color);
        proof {
            let w = wave_total(cfg_k);
            let block = reg.entities@.skip(pre.len() as int);
            assert(reg.entities@.take(olen) =~= s0);
            assert(reg.entities@.skip(olen) =~= pre.skip(olen) + block);
            lemma_waves_ok_snoc(pre.skip(olen), block, cfg0, base, k as nat, enemy_color);
        }
        k = k + 1;
    }
    proof {
        lemma_cfg_after_bounds(cfg0, n as nat);
    }
}

/// The entities kept at session teardown: every enemy destroyed.
pub open spec fn non_enemies(s: Seq<Entity>) -> Seq<Entity>
    decreases s.len(),
{
    if s.len() == 0 {
        Seq::empty()
    } else {
        let rest = non_enemies(s.drop_last());
        if is_enemy(s.last()) {
            rest
        } else {
            rest.push(s.last())
        }
    }
}

/// Destroys every enemy entity and resets the wave configuration to its
/// initial values.
pub fn clear_enemies(reg: &mut Registry, spawn: &mut SpawnEnemies)
    requires
        old(reg).wf(),
    ensures
        final(reg).wf(),
        final(reg).next_id == old(reg).next_id,
        final(reg).entities@ == non_enemies(old(reg).entities@),
        *final(spawn) == SpawnEnemies::initial(),
{
    let ghost s = old(reg).entities@;
    let ghost n0 = old(reg).next_id;
    let ghost mut j: int = 0;
    let mut i: usize = 0;
    while i < reg.entities.len()
        invariant
            reg.wf(),
            reg.next_id == n0,
            0 <= j <= s.len(),
            i == non_enemies(s.take(j)).len(),
            reg.entities@ == non_enemies(s.take(j)) + s.skip(j),
        decreases s.len() - j,
    {
        proof {
            assert(j < s.len());
            assert(s.skip(j)[0] == s[j]);
        }
        let e = reg.entities[i];
        assert(e == s[j]);
        let ghost done = non_enemies(s.take(j));
        proof {
            assert(s.take(j + 1).drop_last() =~= s.take(j));
            assert(s.take(j + 1).last() == s[j]);
        }
        match e.kind {
            Kind::Enemy(_, _) => {
                reg.remove_at(i);
                proof {
                    assert(reg.entities@ =~= done + s.skip(j + 1));
                    j = j + 1;
                }
            },
            _ => {
                proof {
                    assert(reg.entities@ =~= done.push(e) + s.skip(j + 1));
                    j = j + 1;
                }
                i = i + 1;
            },
        }
    }
    proof {
        assert(j == s.len());
        assert(s.take(j) =~= s);
        assert(reg.entities@ =~= non_enemies(s));
    }
    *spawn = SpawnEnemies::default();
}

/// Whether an enemy that is free to fire reaches the end of its countdown
/// this tick; an enemy holding fire never advances its timer.
pub open spec fn fires(e: Entity, dt: int) -> bool {
    match e.kind {
        Kind::Enemy(en, cy) => !en.hold_fire && cy.timer - dt <= 0,
        _ => false,
    }
}

/// An enemy's shoot cycle advanced by the elapsed time: held timers stay,
/// an elapsed timer resets to its configured interval.
pub open spec fn shoot_updated(e: Entity, dt: int) -> Entity {
    match e.kind {
        Kind::Enemy(en, cy) => if en.hold_fire {
            e
        } else {
            let nt = cy.timer - dt;
            Entity {
                id: e.id,
                pos: e.pos,
                aabb: e.aabb,
                color: e.color,
                kind: Kind::Enemy(
                    en,
                    ShootCycle {
                        timer: if nt <= 0 {
                            cy.reset
                        } else {
                            nt as i64
                        },
                        reset: cy.reset,
                    },
                ),
            }
        },
        _ => e,
    }
}

/// The spawn request a firing enemy emits: a fixed downward velocity,
/// spawned slightly below the enemy, with the enemy-projectile visual.
pub open spec fn enemy_bullet_event(e: Entity, color: u64) -> SpawnBulletEvent {
    SpawnBulletEvent {
        bullet: Bullet { speed: Vec2 { x: 0, y: (-90) as i64 } },
        position: Vec2 { x: e.pos.x, y: (e.pos.y - 25) as i64 },
        color,
        size: Vec2 { x: 10, y: 10 },
    }
}

/// The spawn requests one tick of enemy shooting emits, in registry order.
pub open spec fn shoot_events(s: Seq<Entity>, dt: int, color: u64) -> Seq<SpawnBulletEvent>
    decreases s.len(),
{
    if s.len() == 0 {
        Seq::empty()
    } else {
        let rest = shoot_events(s.drop_last(), dt, color);
        if fires(s.last(), dt) {
            rest.push(enemy_bullet_event(s.last(), color))
        } else {
            rest
        }
    }
}

/// Advances the shoot cycle of every enemy that is free to fire and emits
/// one projectile-spawn request per elapsed countdown.
pub fn enemy_shooting(reg: &mut Registry, dt: i64, bullet_color: u64) -> (events: Vec<
    SpawnBulletEvent,
>)
    requires
        old(reg).wf(),
        old(reg).geom_ok(),
        old(reg).attrs_ok(),
        0 <= dt <= MAX_DT,
    ensures
        final(reg).wf(),
        final(reg).next_id == old(reg).next_id,
        final(reg).entities@ == old(reg).entities@.map_values(
            |e: Entity| shoot_updated(e, dt as int),
        ),
        events@ == shoot_events(old(reg).entities@, dt as int, bullet_color),
{
    let ghost s = old(reg).entities@;
    let ghost n0 = old(reg).next_id;
    let mut events: Vec<SpawnBulletEvent> = Vec::new();
    let n = reg.entities.len();
    let mut i: usize = 0;
    while i < n
        invariant
            i <= n,
            n == s.len(),
            reg.wf(),
            reg.next_id == n0,
            reg.entities@.len() == n,
            0 <= dt <= MAX_DT,
            forall|k: int|
                0 <= k < s.len() ==> geom_bounded(#[trigger] s[k]) && attrs_bounded(s[k]),
            forall|k: int| 0 <= k < i ==> reg.entities@[k] == shoot_updated(#[trigger] s[k], dt as int),
            forall|k: int| i <= k < n ==> reg.entities@[k] == #[trigger] s[k],
            events@ == shoot_events(s.take(i as int), dt as int, bullet_color),
        decreases n - i,
    {
        let e = reg.entities[i];
        assert(e == s[i as int]);
        proof {
            assert(s.take(i + 1).drop_last() =~= s.take(i as int));
            assert(s.take(i + 1).last() == s[i as int]);
        }
        match e.kind {
            Kind::Enemy(en, cy) => {
                if !en.hold_fire {
                    let nt: i64 = cy.timer - dt;
                    if nt <= 0 {
                        let updated = Entity {
                            id: e.id,
                            pos: e.pos,
                            aabb: e.aabb,
                            color: e.color,
                            kind: Kind::Enemy(en, ShootCycle { timer: cy.reset, reset: cy.reset }),
                        };
                        reg.replace_at(i, updated);
                        events.push(
                            SpawnBulletEvent {
                                bullet: Bullet { speed: Vec2 { x: 0, y: -90 } },
                                position: Vec2 { x: e.pos.x, y: e.pos.y - 25 },
                                color: bullet_color,
                                size: Vec2 { x: 10, y: 10 },
                            },
                        );
                        proof {
                            assert(events@ =~= shoot_events(s.take(i + 1), dt as int, bullet_color));
                        }
                    } else {
                        let updated = Entity {
                            id: e.id,
                            pos: e.pos,
                            aabb: e.aabb,
                            color: e.color,
                            kind: Kind::Enemy(en, ShootCycle { timer: nt, reset: cy.reset }),
                        };
                        reg.replace_at(i, updated);
                        proof {
                            assert(!fires(s[i as int], dt as int));
                        }
                    }
                } else {
                    proof {
                        assert(shoot_updated(s[i as int], dt as int) == e);
                        assert(!fires(s[i as int], dt as int));
                    }
                }
            },
            _ => {
                proof {
                    assert(shoot_updated(s[i as int], dt as int) == e);
                    assert(!fires(s[i as int], dt as int));
                }
            },
        }
        i = i + 1;
    }
    proof {
        assert(s.take(n as int) =~= s);
        assert(reg.entities@ =~= s.map_values(|e: Entity| shoot_updated(e, dt as int)));
    }
    events
}

} // verus!
