use invaders_core::bullets::Bullet;
use invaders_core::collisions::{collision_system, Aabb, Collision, Vec2};
use invaders_core::world::{Kind, Registry};

fn bullet_kind() -> Kind {
    Kind::Bullet(Bullet { speed: Vec2::new(0, 0) })
}

fn spawn_box(reg: &mut Registry, x: i64, y: i64, ex: i64, ey: i64) -> u64 {
    reg.spawn(Vec2::new(x, y), Aabb::new(Vec2::new(ex, ey)), 0, bullet_kind())
}

#[test]
fn overlapping_pair_emits_one_event() {
    let mut reg = Registry::new();
    let a = spawn_box(&mut reg, 0, 0, 10, 10);
    let b = spawn_box(&mut reg, 5, 5, 10, 10);
    let events = collision_system(&reg);
    assert_eq!(events.len(), 1);
    assert_eq!(events[0], Collision(b, a));
}

#[test]
fn touching_edges_do_not_count() {
    let mut reg = Registry::new();
    spawn_box(&mut reg, 0, 0, 10, 10);
    spawn_box(&mut reg, 20, 0, 10, 10);
    let events = collision_system(&reg);
    assert_eq!(events.len(), 0);
}

#[test]
fn disjoint_pair_emits_nothing() {
    let mut reg = Registry::new();
    spawn_box(&mut reg, 0, 0, 5, 5);
    spawn_box(&mut reg, 100, 100, 5, 5);
    let events = collision_system(&reg);
    assert_eq!(events.len(), 0);
}

#[test]
fn one_entity_emits_nothing() {
    let mut reg = Registry::new();
    spawn_box(&mut reg, 0, 0, 5, 5);
    assert_eq!(collision_system(&reg).len(), 0);
    let empty = Registry::new();
    assert_eq!(collision_system(&empty).len(), 0);
}

#[test]
fn emission_order_follows_processing_order() {
    let mut reg = Registry::new();
    let a = spawn_box(&mut reg, 0, 0, 10, 10);
    let b = spawn_box(&mut reg, 5, 0, 10, 10);
    let c = spawn_box(&mut reg, 10, 0, 10, 10);
    let events = collision_system(&reg);
    assert_eq!(events.len(), 3);
    assert_eq!(events[0], Collision(b, a));
    assert_eq!(events[1], Collision(c, a));
    assert_eq!(events[2], Collision(c, b));
}

#[test]
fn overlap_on_one_axis_only_is_no_collision() {
    let mut reg = Registry::new();
    spawn_box(&mut reg, 0, 0, 10, 10);
    spawn_box(&mut reg, 5, 100, 10, 10);
    assert_eq!(collision_system(&reg).len(), 0);
}
