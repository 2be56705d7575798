use vstd::prelude::*;

use crate::types::{MobType, Point, Style};
use crate::queue::{MobProjectileQueue, PlayerProjectileQueue};

verus! {

/// Coordinates that the simulation keeps its units within; every coordinate
/// arithmetic on them stays far from the limits of `i32`.
pub open spec fn coord_ok(v: int) -> bool {
    -64 <= v <= 128
}

/// A monster on the board. `(x, y)` is its top-left tile; it covers columns
/// `x..x+size` and rows `y-size+1..=y`.
#[derive(Debug)]
pub struct Mob {
    pub id: usize,
    pub mob_type: MobType,
    pub x: i32,
    pub y: i32,
    pub size: i32,
    pub hp: i32,
    pub max_hp: i32,
    pub atk_speed: i32,
    pub range: i32,
    pub attack_delay: i32,
    pub stunned: i32,
    pub frozen: i32,
    pub dead: bool,
    pub dying: i32,
    pub dying_start_tick: i32,
    pub corpse_removal_tick: Option<i32>,
    pub pending_removal_tick: Option<i32>,
    pub revived_once: bool,
    pub has_los: bool,
    pub had_los: bool,
    pub los_checked_tick: i32,
    pub is_blob: bool,
    pub blob_scan_prayer: bool,
    pub last_scan_tick: Option<i32>,
    pub has_dig: bool,
    pub dig_timer: i32,
    pub dig_location: Option<Point>,
    pub has_flicker: bool,
    pub flickering: bool,
    pub incoming_projectiles: PlayerProjectileQueue,
    pub no_los_ticks: i32,
    pub current_style: Option<Style>,
    pub parent_blob_id: Option<usize>,
    pub inf_num: i32,
}

/// A number whose sums and differences with two others of its kind stay small.
pub open spec fn geom_bound(v: int) -> bool {
    -0x8000000 <= v <= 0x8000000
}

/// The geometry of a monster keeps its arithmetic in range: its corner and size are
/// bounded numbers, and its size is at least 1.
pub open spec fn mob_geom_ok(m: Mob) -> bool {
    &&& geom_bound(m.x as int)
    &&& geom_bound(m.y as int)
    &&& 1 <= m.size
    &&& geom_bound(m.size as int)
}

/// The player.
#[derive(Debug)]
pub struct Player {
    pub x: i32,
    pub y: i32,
    pub attack_delay: i32,
    pub range: i32,
    pub incoming_projectiles: MobProjectileQueue,
    pub auto_retaliate: bool,
    pub last_hit: bool,
    pub aggro: Option<usize>,
    pub last_attacker: Option<usize>,
}

/// The player stands on a tile of the 64 by 64 grid.
pub open spec fn player_pos_ok(p: Player) -> bool {
    0 <= p.x < 64 && 0 <= p.y < 64
}

} // verus!
