use invaders_core::collisions::{Aabb, Collision, Vec2};
use invaders_core::enemies::{
    clear_enemies, enemy_movement, enemy_shooting, kill_on_collision, round_over,
    spawn_enemies_on_event, spawn_wave, Enemy, EnemyControl, RoundOver, ShootCycle, SpawnEnemies,
};
use invaders_core::world::{Entity, Kind, Registry};
use invaders_core::AppState;

fn spawn_enemy(reg: &mut Registry, x: i64, y: i64, above: Option<u64>, hold: bool) -> u64 {
    reg.spawn(
        Vec2::new(x, y),
        Aabb::new(Vec2::new(10, 10)),
        0,
        Kind::Enemy(
            Enemy { enemy_above: above, hold_fire: hold },
            ShootCycle { timer: 1000, reset: 5000 },
        ),
    )
}

fn enemy_of(e: &Entity) -> (Enemy, ShootCycle) {
    match e.kind {
        Kind::Enemy(en, cy) => (en, cy),
        _ => panic!("expected an enemy"),
    }
}

#[test]
fn wave_of_one_row_spawns_free_shooters() {
    // A 1x4 formation: four enemies, each the sole member of its column,
    // so none holds fire and none carries a back-reference.
    let mut reg = Registry::new();
    let mut cfg = SpawnEnemies { rows: 1, cols: 4, center: Vec2::new(0, 250), round: 1 };
    spawn_wave(&mut reg, &mut cfg, 3);
    assert_eq!(reg.entities.len(), 4);
    for m in 0..4usize {
        let e = reg.entities[m];
        assert_eq!(e.id, m as u64);
        assert_eq!(e.pos, Vec2::new(-70 + 40 * m as i64, 240));
        assert_eq!(e.aabb.extents, Vec2::new(10, 10));
        assert_eq!(e.color, 3);
        let (en, cy) = enemy_of(&e);
        assert_eq!(en.enemy_above, None);
        assert!(!en.hold_fire);
        assert!(0 <= cy.timer && cy.timer < 10_000);
        assert!(3_000 <= cy.reset && cy.reset < 18_000);
    }
}

#[test]
fn wave_spawn_increments_rows_cols_and_round() {
    let mut reg = Registry::new();
    let mut cfg = SpawnEnemies::default();
    assert_eq!(cfg, SpawnEnemies { rows: 1, cols: 4, center: Vec2::new(0, 250), round: 1 });
    spawn_wave(&mut reg, &mut cfg, 0);
    assert_eq!(cfg, SpawnEnemies { rows: 2, cols: 5, center: Vec2::new(0, 250), round: 2 });
    spawn_wave(&mut reg, &mut cfg, 0);
    assert_eq!(cfg, SpawnEnemies { rows: 3, cols: 6, center: Vec2::new(0, 250), round: 3 });
}

#[test]
fn wave_of_two_rows_builds_the_fire_ladder() {
    // A 2x2 formation: the two top-row enemies (spawned first) hold fire
    // and reference the bottom-row enemy of their column; the bottom row
    // is free to fire.
    let mut reg = Registry::new();
    let mut cfg = SpawnEnemies { rows: 2, cols: 2, center: Vec2::new(0, 250), round: 1 };
    spawn_wave(&mut reg, &mut cfg, 0);
    assert_eq!(reg.entities.len(), 4);
    // top row: ids 0 and 1, y = 220 + 40
    for m in 0..2usize {
        let e = reg.entities[m];
        assert_eq!(e.pos, Vec2::new(-30 + 40 * m as i64, 260));
        let (en, _) = enemy_of(&e);
        assert!(en.hold_fire);
        assert_eq!(en.enemy_above, Some((m + 2) as u64));
    }
    // bottom row: ids 2 and 3, y = 220
    for m in 2..4usize {
        let e = reg.entities[m];
        assert_eq!(e.pos, Vec2::new(-30 + 40 * (m as i64 - 2), 220));
        let (en, _) = enemy_of(&e);
        assert!(!en.hold_fire);
        assert_eq!(en.enemy_above, None);
    }
}

#[test]
fn destroying_an_enemy_promotes_its_referenced_enemy() {
    let mut reg = Registry::new();
    let held = spawn_enemy(&mut reg, 0, 40, None, true);
    let shooter = spawn_enemy(&mut reg, 0, 0, Some(held), false);
    kill_on_collision(&mut reg, &vec![Collision(shooter, 999)]);
    assert_eq!(reg.entities.len(), 1);
    let e = reg.entities[0];
    assert_eq!(e.id, held);
    let (en, _) = enemy_of(&e);
    assert!(!en.hold_fire);
}

#[test]
fn stale_back_reference_is_a_no_op() {
    let mut reg = Registry::new();
    let lone = spawn_enemy(&mut reg, 0, 0, Some(777), false);
    kill_on_collision(&mut reg, &vec![Collision(lone, 999)]);
    assert_eq!(reg.entities.len(), 0);
}

#[test]
fn repeated_events_for_a_destroyed_enemy_are_no_ops() {
    // Reaction systems look ids up before acting, so an enemy destroyed
    // by an earlier event of the same tick reports absent to later ones.
    let mut reg = Registry::new();
    let a = spawn_enemy(&mut reg, 0, 0, None, false);
    let b = spawn_enemy(&mut reg, 50, 50, None, false);
    kill_on_collision(&mut reg, &vec![Collision(a, 999), Collision(a, 998)]);
    assert_eq!(reg.entities.len(), 1);
    assert_eq!(reg.entities[0].id, b);
}

#[test]
fn only_first_enemy_side_of_a_pair_is_destroyed() {
    let mut reg = Registry::new();
    let a = spawn_enemy(&mut reg, 0, 0, None, false);
    let b = spawn_enemy(&mut reg, 5, 5, None, false);
    kill_on_collision(&mut reg, &vec![Collision(a, b)]);
    assert_eq!(reg.entities.len(), 1);
    assert_eq!(reg.entities[0].id, b);
}

#[test]
fn round_over_fires_once_per_empty_transition() {
    let reg = Registry::new();
    let mut in_progress = true;
    assert!(round_over(&reg, &mut in_progress));
    // the population stays empty: no further emission
    assert!(!round_over(&reg, &mut in_progress));
    assert!(!round_over(&reg, &mut in_progress));
    // repopulating re-arms the detector
    let mut reg2 = Registry::new();
    spawn_enemy(&mut reg2, 0, 0, None, false);
    assert!(!round_over(&reg2, &mut in_progress));
    assert!(round_over(&Registry::new(), &mut in_progress));
}

#[test]
fn formation_moves_and_flips_at_the_edge() {
    let mut reg = Registry::new();
    spawn_enemy(&mut reg, 25, 0, None, false);
    let mut ctl = EnemyControl::default();
    let mut state = AppState::Game;
    // window width 100: the edge lies at 40. Move to 35; next step would
    // reach 45, so the direction flips for the following tick.
    let over = enemy_movement(&mut reg, &mut ctl, &mut state, 100, 1000);
    assert!(!over);
    assert_eq!(reg.entities[0].pos, Vec2::new(35, 0));
    assert_eq!(ctl.dir, -1);
    assert!(ctl.just_switched);
    // the tick after a flip steps the formation down instead
    let over = enemy_movement(&mut reg, &mut ctl, &mut state, 100, 1000);
    assert!(!over);
    assert_eq!(reg.entities[0].pos, Vec2::new(35, -20));
    assert!(!ctl.just_switched);
    assert_eq!(state, AppState::Game);
}

#[test]
fn formation_reaching_the_floor_ends_the_session() {
    let mut reg = Registry::new();
    spawn_enemy(&mut reg, 0, -30, None, false);
    let mut ctl = EnemyControl { dir: 1, step: 10, y_step: 20, just_switched: true };
    let mut state = AppState::Game;
    // window height 100: the floor lies at -40; stepping down reaches -50.
    let over = enemy_movement(&mut reg, &mut ctl, &mut state, 100, 100);
    assert!(over);
    assert_eq!(state, AppState::Menu);
    assert_eq!(reg.entities[0].pos, Vec2::new(0, -50));
}

#[test]
fn held_enemy_never_advances_its_timer() {
    let mut reg = Registry::new();
    spawn_enemy(&mut reg, 0, 0, None, true);
    let events = enemy_shooting(&mut reg, 5000, 6);
    assert!(events.is_empty());
    let (_, cy) = enemy_of(&reg.entities[0]);
    assert_eq!(cy.timer, 1000);
}

#[test]
fn elapsed_timer_fires_and_resets() {
    let mut reg = Registry::new();
    spawn_enemy(&mut reg, 7, 50, None, false);
    let events = enemy_shooting(&mut reg, 1500, 6);
    assert_eq!(events.len(), 1);
    let ev = &events[0];
    assert_eq!(ev.position, Vec2::new(7, 25));
    assert_eq!(ev.bullet.speed, Vec2::new(0, -90));
    assert_eq!(ev.size, Vec2::new(10, 10));
    assert_eq!(ev.color, 6);
    let (_, cy) = enemy_of(&reg.entities[0]);
    assert_eq!(cy.timer, 5000);
}

#[test]
fn ticking_timer_does_not_fire_early() {
    let mut reg = Registry::new();
    spawn_enemy(&mut reg, 0, 0, None, false);
    let events = enemy_shooting(&mut reg, 400, 6);
    assert!(events.is_empty());
    let (_, cy) = enemy_of(&reg.entities[0]);
    assert_eq!(cy.timer, 600);
}

#[test]
fn teardown_clears_enemies_and_resets_the_configuration() {
    let mut reg = Registry::new();
    let mut cfg = SpawnEnemies { rows: 3, cols: 7, center: Vec2::new(1, 2), round: 9 };
    spawn_enemy(&mut reg, 0, 0, None, false);
    let keep = reg.spawn(
        Vec2::new(0, 0),
        Aabb::new(Vec2::new(1, 1)),
        0,
        Kind::Bullet(invaders_core::bullets::Bullet { speed: Vec2::new(0, 0) }),
    );
    clear_enemies(&mut reg, &mut cfg);
    assert_eq!(reg.entities.len(), 1);
    assert_eq!(reg.entities[0].id, keep);
    assert_eq!(cfg, SpawnEnemies::default());
}

#[test]
fn cleared_wave_yields_one_round_over_and_a_larger_wave() {
    // Destroying every enemy of a wave, then running one more tick,
    // yields exactly one round-over event and a wave with incremented
    // counts.
    let mut reg = Registry::new();
    let mut cfg = SpawnEnemies::default();
    let mut in_progress = true;

    // game start: zero enemies signal the implicit first round-over
    assert!(round_over(&reg, &mut in_progress));
    spawn_enemies_on_event(&mut reg, &mut cfg, &vec![RoundOver], 0);
    assert_eq!(reg.entities.len(), 4);
    assert_eq!((cfg.rows, cfg.cols, cfg.round), (2, 5, 2));
    assert!(!round_over(&reg, &mut in_progress));

    // destroy the whole wave
    let ids: Vec<u64> = reg.entities.iter().map(|e| e.id).collect();
    let events: Vec<Collision> = ids.iter().map(|&id| Collision(id, u64::MAX)).collect();
    kill_on_collision(&mut reg, &events);
    assert_eq!(reg.entities.len(), 0);

    // one more tick: exactly one round-over, then the next, larger wave
    assert!(round_over(&reg, &mut in_progress));
    assert!(!round_over(&reg, &mut in_progress));
    spawn_enemies_on_event(&mut reg, &mut cfg, &vec![RoundOver], 0);
    assert_eq!(reg.entities.len(), 10);
    assert_eq!((cfg.rows, cfg.cols, cfg.round), (3, 6, 3));
}

#[test]
fn no_event_spawns_no_wave() {
    let mut reg = Registry::new();
    let mut cfg = SpawnEnemies::default();
    spawn_enemies_on_event(&mut reg, &mut cfg, &vec![], 0);
    assert_eq!(reg.entities.len(), 0);
    assert_eq!(cfg, SpawnEnemies::default());
}
