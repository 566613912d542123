use invaders_core::collisions::{Aabb, Collision, Vec2};
use invaders_core::player::{
    despawn_player, kill_player, player_input, spawn_player_startup, Player,
};
use invaders_core::world::{Entity, Kind, Registry};
use invaders_core::AppState;

fn player_of(e: &Entity) -> Player {
    match e.kind {
        Kind::Player(p) => p,
        _ => panic!("expected the player"),
    }
}

#[test]
fn player_spawns_with_its_configured_record() {
    let mut reg = Registry::new();
    let id = spawn_player_startup(&mut reg, 1, 2);
    assert_eq!(reg.entities.len(), 1);
    let e = reg.entities[0];
    assert_eq!(e.id, id);
    assert_eq!(e.pos, Vec2::new(0, -300));
    assert_eq!(e.aabb.extents, Vec2::new(10, 10));
    assert_eq!(e.color, 1);
    let p = player_of(&e);
    assert_eq!(p.move_speed, 120);
    assert_eq!(p.min_pos, Vec2::new(-400, -400));
    assert_eq!(p.max_pos, Vec2::new(400, -400));
    assert_eq!(p.shoot_timer, 0);
    assert_eq!(p.between_shots, 500);
    assert_eq!(p.nuzzle_displacement, Vec2::new(0, 30));
    assert_eq!(p.bullet_speed, Vec2::new(0, 140));
    assert_eq!(p.bullet_color, 2);
}

#[test]
fn movement_is_clamped_into_the_screen_relative_bounds() {
    // Bounds are fractions of the window: with a 1000x800 window the
    // horizontal range is [-400, 400] and the vertical is pinned at -320.
    let mut reg = Registry::new();
    spawn_player_startup(&mut reg, 0, 0);
    // a long push to the right: 120 units/s for 10 s is 1200 units
    player_input(&mut reg, 10_000, 1000, 800, false, true, false);
    assert_eq!(reg.entities[0].pos, Vec2::new(400, -320));
    // and back to the left edge
    player_input(&mut reg, 10_000, 1000, 800, true, false, false);
    assert_eq!(reg.entities[0].pos, Vec2::new(-400, -320));
}

#[test]
fn ordinary_movement_scales_with_elapsed_time() {
    let mut reg = Registry::new();
    spawn_player_startup(&mut reg, 0, 0);
    player_input(&mut reg, 500, 1000, 800, false, true, false);
    // 120 units/s for half a second is 60 units
    assert_eq!(reg.entities[0].pos.x, 60);
    player_input(&mut reg, 500, 1000, 800, true, false, false);
    assert_eq!(reg.entities[0].pos.x, 0);
}

#[test]
fn shooting_emits_at_the_muzzle_and_respects_the_cadence() {
    let mut reg = Registry::new();
    spawn_player_startup(&mut reg, 0, 9);
    let events = player_input(&mut reg, 16, 1000, 800, false, false, true);
    assert_eq!(events.len(), 1);
    let ev = &events[0];
    assert_eq!(ev.position, Vec2::new(0, -290));
    assert_eq!(ev.bullet.speed, Vec2::new(0, 140));
    assert_eq!(ev.size, Vec2::new(10, 10));
    assert_eq!(ev.color, 9);
    assert_eq!(player_of(&reg.entities[0]).shoot_timer, 500);
    // while the countdown is positive the fire key is suppressed
    let events = player_input(&mut reg, 100, 1000, 800, false, false, true);
    assert!(events.is_empty());
    assert_eq!(player_of(&reg.entities[0]).shoot_timer, 400);
    // once it has run out, holding fire shoots again
    let events = player_input(&mut reg, 600, 1000, 800, false, false, true);
    assert!(events.is_empty());
    let events = player_input(&mut reg, 16, 1000, 800, false, false, true);
    assert_eq!(events.len(), 1);
}

#[test]
fn collision_naming_the_player_returns_to_the_menu() {
    let mut reg = Registry::new();
    let id = spawn_player_startup(&mut reg, 0, 0);
    let mut state = AppState::Game;
    kill_player(&reg, &vec![Collision(42, id)], &mut state);
    assert_eq!(state, AppState::Menu);
    // the player entity itself is not destroyed by this reaction
    assert_eq!(reg.entities.len(), 1);
}

#[test]
fn collision_not_naming_the_player_changes_nothing() {
    let mut reg = Registry::new();
    spawn_player_startup(&mut reg, 0, 0);
    let mut state = AppState::Game;
    kill_player(&reg, &vec![Collision(41, 42)], &mut state);
    assert_eq!(state, AppState::Game);
}

#[test]
fn teardown_destroys_the_player() {
    let mut reg = Registry::new();
    let keep = reg.spawn(
        Vec2::new(0, 0),
        Aabb::new(Vec2::new(1, 1)),
        0,
        Kind::Bullet(invaders_core::bullets::Bullet { speed: Vec2::new(0, 0) }),
    );
    spawn_player_startup(&mut reg, 0, 0);
    despawn_player(&mut reg);
    assert_eq!(reg.entities.len(), 1);
    assert_eq!(reg.entities[0].id, keep);
}
