//! Plain data carried by the entities of a game: bodies, positions, combat statistics, items.
use vstd::prelude::*;

use crate::colors::Color;

verus! {

/// How an entity looks and whether it blocks the way.
pub struct Body {
    pub name: String,
    pub blocking: bool,
    pub char: char,
    pub color: Color,
}

/// A position on the map.
#[derive(Debug, PartialEq, Eq, Structural)]
pub struct Coordinates {
    pub x: i32,
    pub y: i32,
}

impl Coordinates {
    pub fn new(x: i32, y: i32) -> (r: Self)
        ensures
            r == (Coordinates { x, y }),
    {
        Coordinates { x, y }
    }
}

/// Hit points and fighting strength.
pub struct CombatStats {
    pub max_hp: i32,
    pub hp: i32,
    pub defense: i32,
    pub attack: i32,
}

/// `v` raised to at least 0, then lowered to at most `max`.
pub open spec fn clamp_hp(v: int, max: int) -> int {
    let low = if v < 0 { 0 } else { v };
    if low > max { max } else { low }
}

impl CombatStats {
    /// Adds `healing_amount` to the hit points, kept between 0 and `max_hp`.
    pub fn heal(&mut self, healing_amount: i32)
        ensures
            final(self).hp == clamp_hp(old(self).hp + healing_amount, old(self).max_hp as int),
            final(self).max_hp == old(self).max_hp,
            final(self).defense == old(self).defense,
            final(self).attack == old(self).attack,
    {
        self.hp = clamped(self.hp as i64 + healing_amount as i64, self.max_hp);
    }

    /// Takes `damage` off the hit points, kept between 0 and `max_hp`.
    pub fn take_damage(&mut self, damage: i32)
        ensures
            final(self).hp == clamp_hp(old(self).hp - damage, old(self).max_hp as int),
            final(self).max_hp == old(self).max_hp,
            final(self).defense == old(self).defense,
            final(self).attack == old(self).attack,
    {
        self.hp = clamped(self.hp as i64 - damage as i64, self.max_hp);
    }
}

fn clamped(v: i64, max: i32) -> (r: i32)
    ensures
        r == clamp_hp(v as int, max as int),
{
    let low: i64 = if v < 0 { 0 } else { v };
    if low > max as i64 {
        max
    } else {
        low as i32
    }
}

/// Marks an entity as an item.
pub struct Item {}

/// An item that heals when used.
pub struct ProvidesHealing {
    pub heal_amount: i32,
}

/// An item that is used up.
pub struct Consumable {}

/// An item used on a target at most `range` away.
pub struct Ranged {
    pub range: i32,
}

/// An item that hits everything within `radius` of its target.
pub struct Burst {
    pub radius: i32,
}

/// An item that deals `damage`.
pub struct InflictsDamage {
    pub damage: i32,
}

} // verus!
