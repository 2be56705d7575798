use vstd::prelude::*;

verus! {

/// Smallest arena column a unit may stand on.
pub const ARENA_X_MIN: i32 = 1;
/// Largest arena column a unit may stand on.
pub const ARENA_X_MAX: i32 = 29;
/// Smallest arena row a unit may stand on.
pub const ARENA_Y_MIN: i32 = 1;
/// Largest arena row a unit may stand on.
pub const ARENA_Y_MAX: i32 = 30;
/// Number of arena columns.
pub const ARENA_W: usize = 29;
/// Number of arena rows.
pub const ARENA_H: usize = 30;
/// Number of arena cells (`ARENA_W * ARENA_H`).
pub const ARENA_CELLS: usize = 870;
/// Number of 64-bit words that hold one row of a cell-by-cell bit table.
pub const LOS_WORDS_PER_ROW: usize = 14;
/// Number of precomputed monster line-of-sight tables.
pub const NPC_LOS_TABLES: usize = 4;
/// Number of precomputed player line-of-sight tables.
pub const PLAYER_LOS_TABLES: usize = 12;
/// Number of monster kinds.
pub const MOB_TYPE_COUNT: usize = 9;
/// Number of monster ids tracked per simulation.
pub const MAX_MOB_IDS: usize = 64;
/// Number of buckets of the damage histogram.
pub const DAMAGE_BUCKETS: usize = 20;
/// Ticks a dying monster stays on the board.
pub const DEATH_ANIM_TICKS: i32 = 3;
/// Size of the blocked-tile grid (`64 * 64`).
pub const GRID_CELLS: usize = 4096;

/// The eight walking directions in search order: four cardinal, then four diagonal.
pub open spec fn bfs_dir_spec(d: int) -> (int, int) {
    if d == 0 { (-1, 0) }
    else if d == 1 { (1, 0) }
    else if d == 2 { (0, 1) }
    else if d == 3 { (0, -1) }
    else if d == 4 { (-1, 1) }
    else if d == 5 { (1, 1) }
    else if d == 6 { (-1, -1) }
    else { (1, -1) }
}

/// The `d`-th walking direction.
pub fn bfs_dir(d: usize) -> (r: (i32, i32))
    requires
        d < 8,
    ensures
        (r.0 as int, r.1 as int) == bfs_dir_spec(d as int),
        -1 <= r.0 <= 1,
        -1 <= r.1 <= 1,
        r.0 != 0 || r.1 != 0,
        d < 4 <==> (r.0 == 0 || r.1 == 0),
{
    match d {
        0 => (-1, 0),
        1 => (1, 0),
        2 => (0, 1),
        3 => (0, -1),
        4 => (-1, 1),
        5 => (1, 1),
        6 => (-1, -1),
        _ => (1, -1),
    }
}

/// The eight neighbouring offsets that a blood barrage splashes onto, in order.
pub open spec fn blood_barrage_offset_spec(i: int) -> (int, int) {
    if i == 0 { (-1, -1) }
    else if i == 1 { (-1, 0) }
    else if i == 2 { (-1, 1) }
    else if i == 3 { (0, -1) }
    else if i == 4 { (0, 1) }
    else if i == 5 { (1, -1) }
    else if i == 6 { (1, 0) }
    else { (1, 1) }
}

/// The `i`-th blood barrage splash offset.
pub fn blood_barrage_offset(i: usize) -> (r: (i32, i32))
    requires
        i < 8,
    ensures
        (r.0 as int, r.1 as int) == blood_barrage_offset_spec(i as int),
        -1 <= r.0 <= 1,
        -1 <= r.1 <= 1,
{
    match i {
        0 => (-1, -1),
        1 => (-1, 0),
        2 => (-1, 1),
        3 => (0, -1),
        4 => (0, 1),
        5 => (1, -1),
        6 => (1, 0),
        _ => (1, 1),
    }
}

/// The nine spawn locations of a wave, in spawn-code order.
pub open spec fn spawn_location_spec(pos: int) -> (int, int) {
    if pos == 0 { (2, 6) }
    else if pos == 1 { (23, 6) }
    else if pos == 2 { (4, 12) }
    else if pos == 3 { (24, 13) }
    else if pos == 4 { (17, 18) }
    else if pos == 5 { (6, 24) }
    else if pos == 6 { (24, 26) }
    else if pos == 7 { (2, 29) }
    else { (16, 29) }
}

/// The spawn location of position `pos` of a spawn code.
pub fn spawn_location(pos: usize) -> (r: (i32, i32))
    requires
        pos < 9,
    ensures
        (r.0 as int, r.1 as int) == spawn_location_spec(pos as int),
{
    match pos {
        0 => (2, 6),
        1 => (23, 6),
        2 => (4, 12),
        3 => (24, 13),
        4 => (17, 18),
        5 => (6, 24),
        6 => (24, 26),
        7 => (2, 29),
        _ => (16, 29),
    }
}

} // verus!
