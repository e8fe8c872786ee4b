use torchbearer::component;
use torchbearer::components::{CombatStats, Coordinates};

fn stats(max_hp: i32, hp: i32) -> CombatStats {
    CombatStats { max_hp, hp, defense: 1, attack: 2 }
}

#[test]
fn heal_caps_at_max() {
    let mut s = stats(30, 25);
    s.heal(10);
    assert_eq!(s.hp, 30);
    s.heal(-50);
    assert_eq!(s.hp, 0);
}

#[test]
fn take_damage_floors_at_zero() {
    let mut s = stats(30, 25);
    s.take_damage(5);
    assert_eq!(s.hp, 20);
    s.take_damage(100);
    assert_eq!(s.hp, 0);
    s.take_damage(-7);
    assert_eq!(s.hp, 7);
}

#[test]
fn heal_without_overflow() {
    let mut s = stats(i32::MAX, i32::MAX - 1);
    s.heal(i32::MAX);
    assert_eq!(s.hp, i32::MAX);
}

#[test]
fn coordinates_new() {
    assert_eq!(Coordinates::new(3, -4), Coordinates { x: 3, y: -4 });
}

#[test]
fn body_coordinates() {
    let body = component::Body { x: 5, y: 9, blocking: true };
    assert_eq!(body.coordinates(), (5, 9));
}
