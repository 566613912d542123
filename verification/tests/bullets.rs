use invaders_core::bullets::{
    bullets_movement, despawn_bullets, despawn_bullets_on_round_over, kill_bullets,
    spawn_bullet_on_event, SpawnBulletEvent,
};
use invaders_core::bullets::Bullet;
use invaders_core::collisions::{Aabb, Collision, Vec2};
use invaders_core::enemies::{Enemy, RoundOver, ShootCycle};
use invaders_core::world::{Kind, Registry};

fn spawn_bullet(reg: &mut Registry, x: i64, y: i64, vx: i64, vy: i64) -> u64 {
    reg.spawn(
        Vec2::new(x, y),
        Aabb::new(Vec2::new(5, 5)),
        0,
        Kind::Bullet(Bullet { speed: Vec2::new(vx, vy) }),
    )
}

fn spawn_enemy(reg: &mut Registry, x: i64, y: i64) -> u64 {
    reg.spawn(
        Vec2::new(x, y),
        Aabb::new(Vec2::new(10, 10)),
        0,
        Kind::Enemy(
            Enemy { enemy_above: None, hold_fire: false },
            ShootCycle { timer: 1000, reset: 5000 },
        ),
    )
}

#[test]
fn spawn_request_creates_bullet_with_half_extents() {
    let mut reg = Registry::new();
    let events = vec![SpawnBulletEvent {
        bullet: Bullet { speed: Vec2::new(0, 140) },
        position: Vec2::new(3, 4),
        color: 9,
        size: Vec2::new(10, 10),
    }];
    spawn_bullet_on_event(&mut reg, &events);
    assert_eq!(reg.entities.len(), 1);
    let e = reg.entities[0];
    assert_eq!(e.pos, Vec2::new(3, 4));
    assert_eq!(e.aabb.extents, Vec2::new(5, 5));
    assert_eq!(e.color, 9);
    match e.kind {
        Kind::Bullet(b) => assert_eq!(b.speed, Vec2::new(0, 140)),
        _ => panic!("expected a bullet"),
    }
}

#[test]
fn bullet_advances_by_velocity_times_elapsed() {
    let mut reg = Registry::new();
    spawn_bullet(&mut reg, 0, 0, 20, -40);
    bullets_movement(&mut reg, 500, 1000, 1000);
    assert_eq!(reg.entities[0].pos, Vec2::new(10, -20));
}

#[test]
fn bullet_destroyed_on_tick_it_first_exceeds_bound() {
    // An upward bullet from the play-field center: alive while |y| stays
    // within half the window height, destroyed the tick it crosses.
    let mut reg = Registry::new();
    spawn_bullet(&mut reg, 0, 0, 0, 30);
    // window 200x200: bound is |y| > 100
    bullets_movement(&mut reg, 1000, 200, 200); // y = 30
    assert_eq!(reg.entities.len(), 1);
    bullets_movement(&mut reg, 1000, 200, 200); // y = 60
    assert_eq!(reg.entities.len(), 1);
    bullets_movement(&mut reg, 1000, 200, 200); // y = 90
    assert_eq!(reg.entities.len(), 1);
    bullets_movement(&mut reg, 1000, 200, 200); // y = 120 > 100: destroyed
    assert_eq!(reg.entities.len(), 0);
}

#[test]
fn bullet_exactly_on_bound_survives() {
    let mut reg = Registry::new();
    spawn_bullet(&mut reg, 0, 90, 0, 10);
    bullets_movement(&mut reg, 1000, 200, 200); // y = 100, not > 100
    assert_eq!(reg.entities.len(), 1);
}

#[test]
fn bullet_vs_bullet_destroys_neither() {
    let mut reg = Registry::new();
    let a = spawn_bullet(&mut reg, 0, 0, 0, 1);
    let b = spawn_bullet(&mut reg, 1, 1, 0, -1);
    kill_bullets(&mut reg, &vec![Collision(a, b)]);
    assert_eq!(reg.entities.len(), 2);
}

#[test]
fn bullet_vs_nonbullet_destroys_exactly_the_bullet() {
    let mut reg = Registry::new();
    let b = spawn_bullet(&mut reg, 0, 0, 0, 1);
    let e = spawn_enemy(&mut reg, 1, 1);
    kill_bullets(&mut reg, &vec![Collision(b, e)]);
    assert_eq!(reg.entities.len(), 1);
    assert_eq!(reg.entities[0].id, e);
    // and symmetrically when the bullet is the second side
    let mut reg2 = Registry::new();
    let e2 = spawn_enemy(&mut reg2, 1, 1);
    let b2 = spawn_bullet(&mut reg2, 0, 0, 0, 1);
    kill_bullets(&mut reg2, &vec![Collision(e2, b2)]);
    assert_eq!(reg2.entities.len(), 1);
    assert_eq!(reg2.entities[0].id, e2);
}

#[test]
fn destroyed_bullet_reports_absent_to_later_events() {
    // The first event destroys the bullet. A later event of the same tick
    // naming its stale id finds no bullet on that side, so the pair no
    // longer counts as bullet-vs-bullet and the live side is destroyed.
    let mut reg = Registry::new();
    let b = spawn_bullet(&mut reg, 0, 0, 0, 1);
    let e = spawn_enemy(&mut reg, 1, 1);
    let b2 = spawn_bullet(&mut reg, 2, 2, 0, 1);
    kill_bullets(&mut reg, &vec![Collision(b, e), Collision(b, b2)]);
    assert_eq!(reg.entities.len(), 1);
    assert_eq!(reg.entities[0].id, e);
}

#[test]
fn nonbullet_pair_prompts_no_action() {
    let mut reg = Registry::new();
    let a = spawn_enemy(&mut reg, 0, 0);
    let b = spawn_enemy(&mut reg, 1, 1);
    kill_bullets(&mut reg, &vec![Collision(a, b)]);
    assert_eq!(reg.entities.len(), 2);
}

#[test]
fn round_over_clears_every_bullet() {
    let mut reg = Registry::new();
    spawn_bullet(&mut reg, 0, 0, 0, 1);
    spawn_bullet(&mut reg, 5, 5, 0, 1);
    let keep = spawn_enemy(&mut reg, 9, 9);
    despawn_bullets_on_round_over(&mut reg, &vec![RoundOver]);
    assert_eq!(reg.entities.len(), 1);
    assert_eq!(reg.entities[0].id, keep);
}

#[test]
fn no_round_over_keeps_bullets() {
    let mut reg = Registry::new();
    spawn_bullet(&mut reg, 0, 0, 0, 1);
    despawn_bullets_on_round_over(&mut reg, &vec![]);
    assert_eq!(reg.entities.len(), 1);
}

#[test]
fn teardown_clears_every_bullet() {
    let mut reg = Registry::new();
    spawn_bullet(&mut reg, 0, 0, 0, 1);
    let keep = spawn_enemy(&mut reg, 9, 9);
    spawn_bullet(&mut reg, 5, 5, 0, 1);
    despawn_bullets(&mut reg);
    assert_eq!(reg.entities.len(), 1);
    assert_eq!(reg.entities[0].id, keep);
}
