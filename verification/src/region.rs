use vstd::prelude::*;

use crate::constants::{ARENA_CELLS, LOS_WORDS_PER_ROW, GRID_CELLS, NPC_LOS_TABLES, PLAYER_LOS_TABLES};
use crate::types::{Point, Entity, PillarConfig};
use crate::constants::{bfs_dir, bfs_dir_spec};
use crate::mechanics::{collides_spec, closest_tile_spec, collision_math, on_grid, key, key_spec, abs_spec, sign_spec, occ_bit, arena_point, arena_point_spec, in_arena, arena_index_spec, lemma_arena_point_roundtrip, lemma_arena_index_roundtrip};

verus! {

// ---------------------------------------------------------------- blocked tiles

/// Whether a tile is blocked: tiles off the 64 by 64 grid count as blocked.
pub open spec fn tile_blocked_spec(bl: Seq<u8>, x: int, y: int) -> bool {
    !on_grid(x, y) || bl[key_spec(x, y)] != 0
}

/// Whether a tile is blocked (tiles off the grid count as blocked).
pub fn tile_blocked(bl: &[u8; 4096], x: i32, y: i32) -> (r: bool)
    ensures
        r == tile_blocked_spec(bl@, x as int, y as int),
{
    if 0 <= x && x < 64 && 0 <= y && y < 64 {
        bl[key(x, y)] != 0
    } else {
        true
    }
}

// ---------------------------------------------------------------- ray casting

/// Fixed-point (16 fractional bits) slope of a ray: the minor-axis change per
/// major-axis step, rounded toward zero.
pub open spec fn ray_slope(d_minor: int, d_major_abs: int) -> int {
    if d_minor >= 0 {
        (d_minor * 65536) / d_major_abs
    } else {
        -((-d_minor * 65536) / d_major_abs)
    }
}

/// Fixed-point minor-axis start of a ray: the centre of the start tile, nudged down
/// by one unit when the ray heads towards smaller coordinates.
pub open spec fn ray_start(c1: int, d_minor: int) -> int {
    c1 * 65536 + 32768 - (if d_minor < 0 { 1int } else { 0int })
}

/// Minor-axis tile of a ray after `k` major-axis steps.
pub open spec fn ray_minor(c1: int, d_minor: int, d_major_abs: int, k: int) -> int {
    (ray_start(c1, d_minor) + k * ray_slope(d_minor, d_major_abs)) / 65536
}

/// Step `k` of a ray is clear: the tile it enters is open, and so is the tile the
/// ray crosses into on the minor axis during that step.
pub open spec fn ray_step_clear(bl: Seq<u8>, major_is_x: bool, m1: int, c1: int, d_major: int, d_minor: int, k: int) -> bool {
    let mk = m1 + k * sign_spec(d_major);
    let before = ray_minor(c1, d_minor, abs_spec(d_major), k - 1);
    let after = ray_minor(c1, d_minor, abs_spec(d_major), k);
    let b_blocked = if major_is_x { tile_blocked_spec(bl, mk, before) } else { tile_blocked_spec(bl, before, mk) };
    let a_blocked = if major_is_x { tile_blocked_spec(bl, mk, after) } else { tile_blocked_spec(bl, after, mk) };
    !b_blocked && (after == before || !a_blocked)
}

/// Whether the ray from tile 1 to tile 2 passes only open tiles (the start tile is not
/// examined). The ray walks the axis of larger change one tile at a time.
pub open spec fn ray_clear(bl: Seq<u8>, x1: int, y1: int, x2: int, y2: int) -> bool {
    let dx = x2 - x1;
    let dy = y2 - y1;
    if dx == 0 && dy == 0 {
        true
    } else if abs_spec(dx) > abs_spec(dy) {
        forall|k: int| 1 <= k <= abs_spec(dx) ==> #[trigger] ray_step_clear(bl, true, x1, y1, dx, dy, k)
    } else {
        forall|k: int| 1 <= k <= abs_spec(dy) ==> #[trigger] ray_step_clear(bl, false, y1, x1, dy, dx, k)
    }
}

proof fn lemma_ray_bounds(c1: int, d_minor: int, d_major_abs: int, k: int)
    requires
        0 <= c1 < 64,
        0 <= c1 + d_minor < 64,
        d_major_abs >= 1,
        abs_spec(d_minor) <= d_major_abs,
        0 <= k <= d_major_abs,
    ensures
        0 <= ray_start(c1, d_minor) + k * ray_slope(d_minor, d_major_abs) < 64 * 65536,
        0 <= ray_minor(c1, d_minor, d_major_abs, k) < 64,
        0 <= ray_slope(d_minor, d_major_abs) <= 65536 || -65536 <= ray_slope(d_minor, d_major_abs) < 0,
{
    let s = ray_slope(d_minor, d_major_abs);
    if d_minor >= 0 {
        assert(0 <= s <= (d_minor * 65536) / d_major_abs);
        assert(s * d_major_abs <= d_minor * 65536) by (nonlinear_arith)
            requires s == (d_minor * 65536) / d_major_abs, d_major_abs >= 1, d_minor >= 0;
        assert(0 <= k * s <= d_major_abs * s) by (nonlinear_arith)
            requires 0 <= k <= d_major_abs, s >= 0;
        assert(s <= 65536) by (nonlinear_arith)
            requires s == (d_minor * 65536) / d_major_abs, d_major_abs >= 1, 0 <= d_minor <= d_major_abs;
    } else {
        let t = (-d_minor * 65536) / d_major_abs;
        assert(t * d_major_abs <= -d_minor * 65536) by (nonlinear_arith)
            requires t == (-d_minor * 65536) / d_major_abs, d_major_abs >= 1, d_minor < 0;
        assert(0 <= t) by (nonlinear_arith)
            requires t == (-d_minor * 65536) / d_major_abs, d_major_abs >= 1, d_minor < 0;
        assert(0 <= k * t <= d_major_abs * t) by (nonlinear_arith)
            requires 0 <= k <= d_major_abs, t >= 0;
        assert(t <= 65536) by (nonlinear_arith)
            requires t == (-d_minor * 65536) / d_major_abs, d_major_abs >= 1, 0 < -d_minor <= d_major_abs;
        assert(k * s == -(k * t)) by (nonlinear_arith)
            requires s == -t;
    }
}

/// Casts a ray between two tiles of the grid over the blocked-tile grid.
pub fn raycast_blocked(bl: &[u8; 4096], x1: i32, y1: i32, x2: i32, y2: i32) -> (r: bool)
    requires
        on_grid(x1 as int, y1 as int),
        on_grid(x2 as int, y2 as int),
    ensures
        r == ray_clear(bl@, x1 as int, y1 as int, x2 as int, y2 as int),
{
    let dx: i32 = x2 - x1;
    let dy: i32 = y2 - y1;
    let dx_abs: i32 = if dx < 0 { -dx } else { dx };
    let dy_abs: i32 = if dy < 0 { -dy } else { dy };
    if dx_abs == 0 && dy_abs == 0 {
        return true;
    }
    if dx_abs > dy_abs {
        let x_inc: i32 = if dx > 0 { 1 } else { -1 };
        let slope: i32 = if dy >= 0 { (dy * 65536) / dx_abs } else { -(((-dy) * 65536) / dx_abs) };
        let mut y: i32 = y1 * 65536 + 0x8000;
        if dy < 0 {
            y = y - 1;
        }
        let mut x_tile: i32 = x1;
        let mut k: i32 = 0;
        proof { lemma_ray_bounds(y1 as int, dy as int, dx_abs as int, 0); }
        while x_tile != x2
            invariant
                on_grid(x1 as int, y1 as int), on_grid(x2 as int, y2 as int),
                dx == x2 - x1, dy == y2 - y1,
                dx_abs == abs_spec(dx as int), dy_abs == abs_spec(dy as int), dx_abs > dy_abs,
                x_inc == sign_spec(dx as int),
                slope == ray_slope(dy as int, dx_abs as int),
                0 <= k <= dx_abs,
                x_tile == x1 + k * x_inc,
                y == ray_start(y1 as int, dy as int) + k * slope,
                forall|j: int| 1 <= j <= k ==> #[trigger] ray_step_clear(bl@, true, x1 as int, y1 as int, dx as int, dy as int, j),
            decreases dx_abs - k,
        {
            proof {
                lemma_ray_bounds(y1 as int, dy as int, dx_abs as int, k as int);
                if k == dx_abs {
                    assert(x_tile == x2);
                }
                lemma_ray_bounds(y1 as int, dy as int, dx_abs as int, k + 1);
                assert(y + slope == ray_start(y1 as int, dy as int) + (k + 1) * slope) by (nonlinear_arith)
                    requires y == ray_start(y1 as int, dy as int) + k * slope;
                assert(x_tile + x_inc == x1 + (k + 1) * x_inc) by (nonlinear_arith)
                    requires x_tile == x1 + k * x_inc;
            }
            x_tile = x_tile + x_inc;
            k = k + 1;
            let y_tile: i32 = y / 65536;
            assert(y_tile == ray_minor(y1 as int, dy as int, dx_abs as int, k - 1));
            if tile_blocked(bl, x_tile, y_tile) {
                assert(!ray_step_clear(bl@, true, x1 as int, y1 as int, dx as int, dy as int, k as int));
                return false;
            }
            y = y + slope;
            let ny: i32 = y / 65536;
            assert(ny == ray_minor(y1 as int, dy as int, dx_abs as int, k as int));
            if ny != y_tile && tile_blocked(bl, x_tile, ny) {
                assert(!ray_step_clear(bl@, true, x1 as int, y1 as int, dx as int, dy as int, k as int));
                return false;
            }
            assert(ray_step_clear(bl@, true, x1 as int, y1 as int, dx as int, dy as int, k as int));
        }
        proof {
            if dx > 0 { assert(k * x_inc == k); } else { assert(k * x_inc == -k); }
        }
    } else {
        let y_inc: i32 = if dy > 0 { 1 } else { -1 };
        let slope: i32 = if dx >= 0 { (dx * 65536) / dy_abs } else { -(((-dx) * 65536) / dy_abs) };
        let mut x: i32 = x1 * 65536 + 0x8000;
        if dx < 0 {
            x = x - 1;
        }
        let mut y_tile: i32 = y1;
        let mut k: i32 = 0;
        proof { lemma_ray_bounds(x1 as int, dx as int, dy_abs as int, 0); }
        while y_tile != y2
            invariant
                on_grid(x1 as int, y1 as int), on_grid(x2 as int, y2 as int),
                dx == x2 - x1, dy == y2 - y1,
                dx_abs == abs_spec(dx as int), dy_abs == abs_spec(dy as int), dx_abs <= dy_abs, dy_abs > 0,
                y_inc == sign_spec(dy as int),
                slope == ray_slope(dx as int, dy_abs as int),
                0 <= k <= dy_abs,
                y_tile == y1 + k * y_inc,
                x == ray_start(x1 as int, dx as int) + k * slope,
                forall|j: int| 1 <= j <= k ==> #[trigger] ray_step_clear(bl@, false, y1 as int, x1 as int, dy as int, dx as int, j),
            decreases dy_abs - k,
        {
            proof {
                lemma_ray_bounds(x1 as int, dx as int, dy_abs as int, k as int);
                if k == dy_abs {
                    assert(y_tile == y2);
                }
                lemma_ray_bounds(x1 as int, dx as int, dy_abs as int, k + 1);
                assert(x + slope == ray_start(x1 as int, dx as int) + (k + 1) * slope) by (nonlinear_arith)
                    requires x == ray_start(x1 as int, dx as int) + k * slope;
                assert(y_tile + y_inc == y1 + (k + 1) * y_inc) by (nonlinear_arith)
                    requires y_tile == y1 + k * y_inc;
            }
            y_tile = y_tile + y_inc;
            k = k + 1;
            let x_tile: i32 = x / 65536;
            assert(x_tile == ray_minor(x1 as int, dx as int, dy_abs as int, k - 1));
            if tile_blocked(bl, x_tile, y_tile) {
                assert(!ray_step_clear(bl@, false, y1 as int, x1 as int, dy as int, dx as int, k as int));
                return false;
            }
            x = x + slope;
            let nx: i32 = x / 65536;
            assert(nx == ray_minor(x1 as int, dx as int, dy_abs as int, k as int));
            if nx != x_tile && tile_blocked(bl, nx, y_tile) {
                assert(!ray_step_clear(bl@, false, y1 as int, x1 as int, dy as int, dx as int, k as int));
                return false;
            }
            assert(ray_step_clear(bl@, false, y1 as int, x1 as int, dy as int, dx as int, k as int));
        }
        proof {
            if dy > 0 { assert(k * y_inc == k); } else { assert(k * y_inc == -k); }
        }
    }
    true
}


// ---------------------------------------------------------------- bit tables

/// Bit `(row, col)` of a cell-by-cell bit table (rows of `LOS_WORDS_PER_ROW` words).
pub open spec fn table_bit(words: Seq<u64>, row: int, col: int) -> bool {
    occ_bit(words[row * (LOS_WORDS_PER_ROW as int) + col / 64], col % 64)
}

/// Length of a cell-by-cell bit table.
pub open spec fn table_len() -> int {
    (ARENA_CELLS as int) * (LOS_WORDS_PER_ROW as int)
}

proof fn lemma_table_index(row: int, col: int)
    requires
        0 <= row < ARENA_CELLS, 0 <= col < 896,
    ensures
        0 <= row * (LOS_WORDS_PER_ROW as int) + col / 64 < table_len(),
        0 <= col / 64 < 14,
        0 <= col % 64 < 64,
{
    assert(0 <= col / 64 < 14) by (nonlinear_arith)
        requires 0 <= col < 896;
    assert(0 <= row * 14 + col / 64 < 870 * 14) by (nonlinear_arith)
        requires 0 <= row < 870, 0 <= col / 64 < 14;
}

proof fn lemma_table_index_unique(row: int, col: int, row2: int, col2: int)
    requires
        0 <= row < ARENA_CELLS, 0 <= col < 896,
        0 <= row2 < ARENA_CELLS, 0 <= col2 < 896,
        row * 14 + col / 64 == row2 * 14 + col2 / 64,
        col % 64 == col2 % 64,
    ensures
        row == row2 && col == col2,
{
    lemma_table_index(row, col);
    lemma_table_index(row2, col2);
    vstd::arithmetic::div_mod::lemma_fundamental_div_mod_converse(row * 14 + col / 64, 14, row, col / 64);
    vstd::arithmetic::div_mod::lemma_fundamental_div_mod_converse(row * 14 + col / 64, 14, row2, col2 / 64);
    vstd::arithmetic::div_mod::lemma_fundamental_div_mod(col, 64);
    vstd::arithmetic::div_mod::lemma_fundamental_div_mod(col2, 64);
}

/// Setting bit `(row, col)` of a table sets exactly that bit.
proof fn lemma_table_set_bit(words: Seq<u64>, row: int, col: int)
    requires
        words.len() == table_len(),
        0 <= row < ARENA_CELLS, 0 <= col < ARENA_CELLS,
    ensures
        ({
            let w = row * 14 + col / 64;
            let new = words.update(w, words[w] | (1u64 << ((col % 64) as u64)));
            &&& new.len() == table_len()
            &&& forall|r2: int, c2: int| 0 <= r2 < ARENA_CELLS && 0 <= c2 < 896 ==>
                #[trigger] table_bit(new, r2, c2) == (table_bit(words, r2, c2) || (r2 == row && c2 == col))
        }),
{
    let w = row * 14 + col / 64;
    lemma_table_index(row, col);
    let new = words.update(w, words[w] | (1u64 << ((col % 64) as u64)));
    assert forall|r2: int, c2: int| 0 <= r2 < ARENA_CELLS && 0 <= c2 < 896 implies
        #[trigger] table_bit(new, r2, c2) == (table_bit(words, r2, c2) || (r2 == row && c2 == col)) by {
        lemma_table_index(r2, c2);
        let w2 = r2 * 14 + c2 / 64;
        if w2 == w {
            lemma_bit_or_pub(words[w], (col % 64) as u64, (c2 % 64) as u64);
            if c2 % 64 == col % 64 {
                lemma_table_index_unique(row, col, r2, c2);
            }
        }
    }
}

/// Bit `i` of `w | (1 << k)`.
pub proof fn lemma_bit_or_pub(w: u64, k: u64, i: u64)
    requires
        k < 64, i < 64,
    ensures
        ((w | (1u64 << k)) >> i) & 1u64 == if i == k { 1u64 } else { (w >> i) & 1u64 },
{
    assert(((w | (1u64 << k)) >> i) & 1u64 == if i == k { 1u64 } else { (w >> i) & 1u64 }) by (bit_vector)
        requires k < 64, i < 64;
}

/// An all-zero table.
fn zero_table() -> (r: Vec<u64>)
    ensures
        r@.len() == table_len(),
        forall|a: int, b: int| 0 <= a < ARENA_CELLS && 0 <= b < 896 ==> !#[trigger] table_bit(r@, a, b),
{
    let mut v: Vec<u64> = Vec::new();
    let mut i: usize = 0;
    while i < ARENA_CELLS * LOS_WORDS_PER_ROW
        invariant
            i <= ARENA_CELLS * LOS_WORDS_PER_ROW,
            v@.len() == i,
            forall|k: int| 0 <= k < i ==> #[trigger] v@[k] == 0u64,
        decreases ARENA_CELLS * LOS_WORDS_PER_ROW - i,
    {
        v.push(0u64);
        i = i + 1;
    }
    proof {
        assert forall|a: int, b: int| 0 <= a < ARENA_CELLS && 0 <= b < 896 implies !#[trigger] table_bit(v@, a, b) by {
            lemma_table_index(a, b);
            let k = (b % 64) as u64;
            assert((0u64 >> k) & 1u64 == 0u64) by (bit_vector);
        }
    }
    v
}

/// Sets bit `(row, col)` of a table.
fn set_table_bit(words: &mut Vec<u64>, row: usize, col: usize)
    requires
        old(words)@.len() == table_len(),
        row < ARENA_CELLS, col < ARENA_CELLS,
    ensures
        final(words)@.len() == table_len(),
        forall|r2: int, c2: int| 0 <= r2 < ARENA_CELLS && 0 <= c2 < 896 ==>
            #[trigger] table_bit(final(words)@, r2, c2) == (table_bit(old(words)@, r2, c2) || (r2 == row && c2 == col)),
{
    proof { lemma_table_set_bit(words@, row as int, col as int); lemma_table_index(row as int, col as int); }
    let w: usize = row * LOS_WORDS_PER_ROW + col / 64;
    let v: u64 = words[w] | (1u64 << ((col % 64) as u64));
    words.set(w, v);
}

/// Reads bit `(from, to)` of a cell-by-cell bit table, such as the tile line-of-sight graph.
pub fn graph_tile_los(words: &Vec<u64>, row: usize, col: usize) -> (r: bool)
    requires
        words@.len() == table_len(),
        row < ARENA_CELLS, col < ARENA_CELLS,
    ensures
        r == table_bit(words@, row as int, col as int),
{
    proof { lemma_table_index(row as int, col as int); }
    let w: usize = row * LOS_WORDS_PER_ROW + col / 64;
    let x: u64 = words[w];
    let k: u64 = (col % 64) as u64;
    assert((x >> k) & 1u64 == 0u64 || (x >> k) & 1u64 == 1u64) by (bit_vector);
    ((x >> k) & 1u64) != 0
}

// ---------------------------------------------------------------- tile line of sight

/// Whether arena cells `a` and `b` see each other: both open and the ray between them clear.
pub open spec fn los_pair_spec(bl: Seq<u8>, a: int, b: int) -> bool {
    let pa = arena_point_spec(a);
    let pb = arena_point_spec(b);
    !tile_blocked_spec(bl, pa.0, pa.1) && !tile_blocked_spec(bl, pb.0, pb.1) && ray_clear(bl, pa.0, pa.1, pb.0, pb.1)
}

/// The tile line-of-sight table: bit `(a, b)` tells whether arena cells `a` and `b` see each other.
pub fn build_los_graph(blocked: &[u8; 4096]) -> (r: Vec<u64>)
    ensures
        r@.len() == table_len(),
        forall|a: int, b: int| 0 <= a < ARENA_CELLS && 0 <= b < ARENA_CELLS ==>
            #[trigger] table_bit(r@, a, b) == los_pair_spec(blocked@, a, b),
        forall|a: int, b: int| 0 <= a < ARENA_CELLS && ARENA_CELLS <= b < 896 ==> !#[trigger] table_bit(r@, a, b),
{
    let mut los: Vec<u64> = zero_table();
    let mut from: usize = 0;
    while from < ARENA_CELLS
        invariant
            from <= ARENA_CELLS,
            los@.len() == table_len(),
            forall|a: int, b: int| 0 <= a < ARENA_CELLS && 0 <= b < ARENA_CELLS ==>
                #[trigger] table_bit(los@, a, b) == (a < from && los_pair_spec(blocked@, a, b)),
            forall|a: int, b: int| 0 <= a < ARENA_CELLS && ARENA_CELLS <= b < 896 ==> !#[trigger] table_bit(los@, a, b),
        decreases ARENA_CELLS - from,
    {
        let a: crate::types::Point = arena_point(from);
        if !tile_blocked(blocked, a.x, a.y) {
            let mut to: usize = 0;
            while to < ARENA_CELLS
                invariant
                    from < ARENA_CELLS,
                    to <= ARENA_CELLS,
                    (a.x as int, a.y as int) == arena_point_spec(from as int),
                    in_arena(a.x as int, a.y as int),
                    !tile_blocked_spec(blocked@, a.x as int, a.y as int),
                    los@.len() == table_len(),
                    forall|a2: int, b: int| 0 <= a2 < ARENA_CELLS && 0 <= b < ARENA_CELLS ==>
                        #[trigger] table_bit(los@, a2, b) == ((a2 < from || (a2 == from && b < to)) && los_pair_spec(blocked@, a2, b)),
                    forall|a2: int, b: int| 0 <= a2 < ARENA_CELLS && ARENA_CELLS <= b < 896 ==> !#[trigger] table_bit(los@, a2, b),
                decreases ARENA_CELLS - to,
            {
                let b: crate::types::Point = arena_point(to);
                if !tile_blocked(blocked, b.x, b.y) {
                    if raycast_blocked(blocked, a.x, a.y, b.x, b.y) {
                        set_table_bit(&mut los, from, to);
                    }
                }
                to = to + 1;
            }
        }
        from = from + 1;
    }
    los
}


// ---------------------------------------------------------------- monster and player sight tables

/// Whether a monster of `size` and `range` standing on arena cell `mob_idx` sees the
/// player on arena cell `player_idx`: both tiles open, the player not under the monster,
/// and the monster's tile nearest to the player an open arena tile within range that
/// sees the player.
pub open spec fn npc_table_entry(bl: Seq<u8>, size: int, range: int, mob_idx: int, player_idx: int) -> bool {
    let m = arena_point_spec(mob_idx);
    let p = arena_point_spec(player_idx);
    let t = closest_tile_spec(m.0, m.1, size, p.0, p.1);
    &&& !tile_blocked_spec(bl, m.0, m.1)
    &&& !tile_blocked_spec(bl, p.0, p.1)
    &&& !collides_spec(m.0, m.1, size, p.0, p.1, 1)
    &&& in_arena(t.0, t.1)
    &&& !tile_blocked_spec(bl, t.0, t.1)
    &&& abs_spec(t.0 - p.0) <= range && abs_spec(t.1 - p.1) <= range
    &&& los_pair_spec(bl, player_idx, arena_index_spec(t.0, t.1))
}

/// Whether the player on arena cell `player_idx` sees a monster of `size` standing on
/// arena cell `mob_idx` with attack range `range`: the player's tile and the monster's
/// tile nearest to the player open, distinct, within range, and in sight of each other.
pub open spec fn player_table_entry(bl: Seq<u8>, size: int, range: int, mob_idx: int, player_idx: int) -> bool {
    let m = arena_point_spec(mob_idx);
    let p = arena_point_spec(player_idx);
    let t = closest_tile_spec(m.0, m.1, size, p.0, p.1);
    &&& !tile_blocked_spec(bl, p.0, p.1)
    &&& !tile_blocked_spec(bl, t.0, t.1)
    &&& !(p.0 == t.0 && p.1 == t.1)
    &&& abs_spec(t.0 - p.0) <= range && abs_spec(t.1 - p.1) <= range
    &&& in_arena(t.0, t.1)
    &&& los_pair_spec(bl, player_idx, arena_index_spec(t.0, t.1))
}

/// A table holds exactly the monster sight entries for `size` and `range`.
pub open spec fn npc_table_ok(bl: Seq<u8>, t: Seq<u64>, size: int, range: int) -> bool {
    &&& t.len() == table_len()
    &&& forall|a: int, b: int| 0 <= a < ARENA_CELLS && 0 <= b < ARENA_CELLS ==>
        #[trigger] table_bit(t, a, b) == npc_table_entry(bl, size, range, a, b)
}

/// A table holds exactly the player sight entries for `size` and `range`.
pub open spec fn player_table_ok(bl: Seq<u8>, t: Seq<u64>, size: int, range: int) -> bool {
    &&& t.len() == table_len()
    &&& forall|a: int, b: int| 0 <= a < ARENA_CELLS && 0 <= b < ARENA_CELLS ==>
        #[trigger] table_bit(t, a, b) == player_table_entry(bl, size, range, a, b)
}

/// A table holds exactly the tile sight pairs.
pub open spec fn los_table_ok(bl: Seq<u8>, t: Seq<u64>) -> bool {
    &&& t.len() == table_len()
    &&& forall|a: int, b: int| 0 <= a < ARENA_CELLS && 0 <= b < ARENA_CELLS ==>
        #[trigger] table_bit(t, a, b) == los_pair_spec(bl, a, b)
}

/// The monster sight table for `size` and `range`.
pub fn build_npc_los_table(blocked: &[u8; 4096], tile_los: &Vec<u64>, size: i32, range: i32) -> (r: Vec<u64>)
    requires
        los_table_ok(blocked@, tile_los@),
        1 <= size <= 4,
    ensures
        npc_table_ok(blocked@, r@, size as int, range as int),
{
    let mut los: Vec<u64> = zero_table();
    let mut mob_idx: usize = 0;
    while mob_idx < ARENA_CELLS
        invariant
            mob_idx <= ARENA_CELLS,
            1 <= size <= 4,
            los_table_ok(blocked@, tile_los@),
            los@.len() == table_len(),
            forall|a: int, b: int| 0 <= a < ARENA_CELLS && 0 <= b < ARENA_CELLS ==>
                #[trigger] table_bit(los@, a, b) == (a < mob_idx && npc_table_entry(blocked@, size as int, range as int, a, b)),
        decreases ARENA_CELLS - mob_idx,
    {
        let mob: Point = arena_point(mob_idx);
        if !tile_blocked(blocked, mob.x, mob.y) {
            let mut player_idx: usize = 0;
            while player_idx < ARENA_CELLS
                invariant
                    mob_idx < ARENA_CELLS,
                    player_idx <= ARENA_CELLS,
                    1 <= size <= 4,
                    (mob.x as int, mob.y as int) == arena_point_spec(mob_idx as int),
                    in_arena(mob.x as int, mob.y as int),
                    !tile_blocked_spec(blocked@, mob.x as int, mob.y as int),
                    los_table_ok(blocked@, tile_los@),
                    los@.len() == table_len(),
                    forall|a: int, b: int| 0 <= a < ARENA_CELLS && 0 <= b < ARENA_CELLS ==>
                        #[trigger] table_bit(los@, a, b) == ((a < mob_idx || (a == mob_idx && b < player_idx))
                            && npc_table_entry(blocked@, size as int, range as int, a, b)),
                decreases ARENA_CELLS - player_idx,
            {
                let player: Point = arena_point(player_idx);
                let hx: i32 = mob.x + size - 1;
                let tx0: i32 = if player.x <= hx { player.x } else { hx };
                let tx: i32 = if mob.x >= tx0 { mob.x } else { tx0 };
                let ly: i32 = mob.y - size + 1;
                let ty0: i32 = if player.y <= mob.y { player.y } else { mob.y };
                let ty: i32 = if ly >= ty0 { ly } else { ty0 };
                let ghost entry = npc_table_entry(blocked@, size as int, range as int, mob_idx as int, player_idx as int);
                if !tile_blocked(blocked, player.x, player.y)
                    && !collision_math(mob.x, mob.y, size, player.x, player.y, 1)
                {
                    if let Some(target_idx) = crate::mechanics::arena_idx(tx, ty) {
                        let dxr: i32 = if tx - player.x < 0 { player.x - tx } else { tx - player.x };
                        let dyr: i32 = if ty - player.y < 0 { player.y - ty } else { ty - player.y };
                        if !tile_blocked(blocked, tx, ty) && !(dxr > range || dyr > range) {
                            if graph_tile_los(tile_los, player_idx, target_idx) {
                                assert(entry);
                                set_table_bit(&mut los, mob_idx, player_idx);
                            } else {
                                assert(!entry);
                            }
                        } else {
                            assert(!entry);
                        }
                    } else {
                        assert(!entry);
                    }
                } else {
                    assert(!entry);
                }
                player_idx = player_idx + 1;
            }
        } else {
            assert forall|b: int| 0 <= b < ARENA_CELLS implies !npc_table_entry(blocked@, size as int, range as int, mob_idx as int, b) by {}
        }
        mob_idx = mob_idx + 1;
    }
    los
}

/// The player sight table for monsters of `size` and attack range `range`.
pub fn build_player_los_table(blocked: &[u8; 4096], tile_los: &Vec<u64>, size: i32, range: i32) -> (r: Vec<u64>)
    requires
        los_table_ok(blocked@, tile_los@),
        1 <= size <= 4,
    ensures
        player_table_ok(blocked@, r@, size as int, range as int),
{
    let mut los: Vec<u64> = zero_table();
    let mut mob_idx: usize = 0;
    while mob_idx < ARENA_CELLS
        invariant
            mob_idx <= ARENA_CELLS,
            1 <= size <= 4,
            los_table_ok(blocked@, tile_los@),
            los@.len() == table_len(),
            forall|a: int, b: int| 0 <= a < ARENA_CELLS && 0 <= b < ARENA_CELLS ==>
                #[trigger] table_bit(los@, a, b) == (a < mob_idx && player_table_entry(blocked@, size as int, range as int, a, b)),
        decreases ARENA_CELLS - mob_idx,
    {
        let mob: Point = arena_point(mob_idx);
        let mut player_idx: usize = 0;
        while player_idx < ARENA_CELLS
            invariant
                mob_idx < ARENA_CELLS,
                player_idx <= ARENA_CELLS,
                1 <= size <= 4,
                (mob.x as int, mob.y as int) == arena_point_spec(mob_idx as int),
                in_arena(mob.x as int, mob.y as int),
                los_table_ok(blocked@, tile_los@),
                los@.len() == table_len(),
                forall|a: int, b: int| 0 <= a < ARENA_CELLS && 0 <= b < ARENA_CELLS ==>
                    #[trigger] table_bit(los@, a, b) == ((a < mob_idx || (a == mob_idx && b < player_idx))
                        && player_table_entry(blocked@, size as int, range as int, a, b)),
            decreases ARENA_CELLS - player_idx,
        {
            let player: Point = arena_point(player_idx);
            let hx: i32 = mob.x + size - 1;
            let tx0: i32 = if player.x <= hx { player.x } else { hx };
            let tx: i32 = if mob.x >= tx0 { mob.x } else { tx0 };
            let ly: i32 = mob.y - size + 1;
            let ty0: i32 = if player.y <= mob.y { player.y } else { mob.y };
            let ty: i32 = if ly >= ty0 { ly } else { ty0 };
            let ghost entry = player_table_entry(blocked@, size as int, range as int, mob_idx as int, player_idx as int);
            let dxr: i32 = if tx - player.x < 0 { player.x - tx } else { tx - player.x };
            let dyr: i32 = if ty - player.y < 0 { player.y - ty } else { ty - player.y };
            if !tile_blocked(blocked, player.x, player.y) && !tile_blocked(blocked, tx, ty)
                && !(player.x == tx && player.y == ty) && !(dxr > range || dyr > range)
            {
                if let Some(target_idx) = crate::mechanics::arena_idx(tx, ty) {
                    if graph_tile_los(tile_los, player_idx, target_idx) {
                        assert(entry);
                        set_table_bit(&mut los, mob_idx, player_idx);
                    } else {
                        assert(!entry);
                    }
                } else {
                    assert(!entry);
                }
            } else {
                assert(!entry);
            }
            player_idx = player_idx + 1;
        }
        mob_idx = mob_idx + 1;
    }
    los
}

/// Size and range of the monster sight tables, by table index.
pub open spec fn npc_table_params(i: int) -> (int, int) {
    if i == 0 { (1, 15) } else if i == 1 { (2, 4) } else if i == 2 { (3, 15) } else { (4, 15) }
}

/// Size and range of the player sight tables, by table index: sizes 1 to 4 for
/// each of the ranges 5, 8 and 10.
pub open spec fn player_table_params(i: int) -> (int, int) {
    (i % 4 + 1, if i < 4 { 5 } else if i < 8 { 8 } else { 10 })
}

/// The monster sight table for a monster size and range, if one is kept.
pub open spec fn npc_los_table_idx_spec(size: int, range: int) -> Option<usize> {
    if size == 1 && range == 15 { Some(0) }
    else if size == 2 && range == 4 { Some(1) }
    else if size == 3 && range == 15 { Some(2) }
    else if size == 4 && range == 15 { Some(3) }
    else { None }
}

/// The player sight table for a monster size and player range, if one is kept.
pub open spec fn player_los_table_idx_spec(size: int, range: int) -> Option<usize> {
    if 1 <= size <= 4 && (range == 5 || range == 8 || range == 10) {
        Some(((size - 1) + (if range == 5 { 0int } else if range == 8 { 4int } else { 8int })) as usize)
    } else {
        None
    }
}

/// Index of the monster sight table for a monster size and range, if one is kept.
pub fn npc_los_table_idx(size: i32, range: i32) -> (r: Option<usize>)
    ensures
        r == npc_los_table_idx_spec(size as int, range as int),
        r matches Some(i) ==> i < NPC_LOS_TABLES && npc_table_params(i as int) == (size as int, range as int),
{
    if size == 1 && range == 15 {
        Some(0)
    } else if size == 2 && range == 4 {
        Some(1)
    } else if size == 3 && range == 15 {
        Some(2)
    } else if size == 4 && range == 15 {
        Some(3)
    } else {
        None
    }
}

/// Index of the player sight table for a monster size and player range, if one is kept.
pub fn player_los_table_idx(size: i32, range: i32) -> (r: Option<usize>)
    ensures
        r == player_los_table_idx_spec(size as int, range as int),
        r matches Some(i) ==> i < PLAYER_LOS_TABLES && player_table_params(i as int) == (size as int, range as int),
{
    if 1 <= size && size <= 4 && (range == 5 || range == 8 || range == 10) {
        let base: usize = if range == 5 { 0 } else if range == 8 { 4 } else { 8 };
        Some((size - 1) as usize + base)
    } else {
        None
    }
}

/// The four monster sight tables.
pub fn build_npc_los_tables(blocked: &[u8; 4096], tile_los: &Vec<u64>) -> (r: [Vec<u64>; 4])
    requires
        los_table_ok(blocked@, tile_los@),
    ensures
        forall|i: int| 0 <= i < NPC_LOS_TABLES ==>
            npc_table_ok(blocked@, (#[trigger] r@[i])@, npc_table_params(i).0, npc_table_params(i).1),
{
    let r = [
        build_npc_los_table(blocked, tile_los, 1, 15),
        build_npc_los_table(blocked, tile_los, 2, 4),
        build_npc_los_table(blocked, tile_los, 3, 15),
        build_npc_los_table(blocked, tile_los, 4, 15),
    ];
    r
}

/// The twelve player sight tables.
#[verifier::rlimit(60)]
pub fn build_player_los_tables(blocked: &[u8; 4096], tile_los: &Vec<u64>) -> (r: [Vec<u64>; 12])
    requires
        los_table_ok(blocked@, tile_los@),
    ensures
        forall|i: int| 0 <= i < PLAYER_LOS_TABLES ==>
            player_table_ok(blocked@, (#[trigger] r@[i])@, player_table_params(i).0, player_table_params(i).1),
{
    let r = [
        build_player_los_table(blocked, tile_los, 1, 5),
        build_player_los_table(blocked, tile_los, 2, 5),
        build_player_los_table(blocked, tile_los, 3, 5),
        build_player_los_table(blocked, tile_los, 4, 5),
        build_player_los_table(blocked, tile_los, 1, 8),
        build_player_los_table(blocked, tile_los, 2, 8),
        build_player_los_table(blocked, tile_los, 3, 8),
        build_player_los_table(blocked, tile_los, 4, 8),
        build_player_los_table(blocked, tile_los, 1, 10),
        build_player_los_table(blocked, tile_los, 2, 10),
        build_player_los_table(blocked, tile_los, 3, 10),
        build_player_los_table(blocked, tile_los, 4, 10),
    ];
    r
}


// ---------------------------------------------------------------- walking

/// Whether walking from tile `(x, y)` in direction `d` is allowed: the target tile is
/// an open arena tile, and a diagonal step does not cut a blocked corner.
pub open spec fn step_allowed(bl: Seq<u8>, x: int, y: int, d: int) -> bool {
    let (dx, dy) = bfs_dir_spec(d);
    &&& 0 <= d < 8
    &&& in_arena(x + dx, y + dy)
    &&& !tile_blocked_spec(bl, x + dx, y + dy)
    &&& (d >= 4 ==> !tile_blocked_spec(bl, x + dx, y) && !tile_blocked_spec(bl, x, y + dy))
}

/// Whether arena cell `b` is one allowed step from arena cell `a`, in direction `d`.
pub open spec fn legal_step_dir(bl: Seq<u8>, a: int, b: int, d: int) -> bool {
    let pa = arena_point_spec(a);
    let pb = arena_point_spec(b);
    step_allowed(bl, pa.0, pa.1, d) && pb == (pa.0 + bfs_dir_spec(d).0, pa.1 + bfs_dir_spec(d).1)
}

/// Whether arena cell `b` is one allowed step from arena cell `a`.
pub open spec fn legal_step(bl: Seq<u8>, a: int, b: int) -> bool {
    exists|d: int| #[trigger] legal_step_dir(bl, a, b, d)
}

/// Whether `p` is a walk of arena cells, each an allowed step from the one before.
pub open spec fn is_walk(bl: Seq<u8>, p: Seq<int>) -> bool {
    &&& p.len() >= 1
    &&& forall|i: int| 0 <= i < p.len() ==> 0 <= #[trigger] p[i] < ARENA_CELLS
    &&& forall|i: int| 0 <= i < p.len() - 1 ==> #[trigger] legal_step(bl, p[i], p[i + 1])
}

/// Whether arena cell `b` can be reached from arena cell `a` by allowed steps.
pub open spec fn reachable(bl: Seq<u8>, a: int, b: int) -> bool {
    exists|p: Seq<int>| #[trigger] is_walk(bl, p) && p[0] == a && p.last() == b
}

/// Whether arena cell `b` can be reached from arena cell `a` in at most `n` allowed steps.
pub open spec fn reach_le(bl: Seq<u8>, a: int, b: int, n: int) -> bool {
    exists|p: Seq<int>| #[trigger] is_walk(bl, p) && p[0] == a && p.last() == b && p.len() - 1 <= n
}

/// Whether `v` is the right first-step entry from `src` to `dst`: there is one exactly
/// when `src` is open, differs from `dst` and reaches it; the step is the first of a
/// shortest walk: whenever `src` reaches `dst` in `n` steps, the step reaches it in
/// `n - 1`.
pub open spec fn path_entry_ok(bl: Seq<u8>, src: int, dst: int, v: u16) -> bool {
    &&& (v != 0 <==> (dst != src && !tile_blocked_spec(bl, arena_point_spec(src).0, arena_point_spec(src).1)
        && reachable(bl, src, dst)))
    &&& v != 0 ==> reachable(bl, v - 1, dst)
    &&& v != 0 ==> forall|n: int| #[trigger] reach_le(bl, src, dst, n) ==> reach_le(bl, v - 1, dst, n - 1)
}

/// One more allowed step extends a walk of at most `n` steps.
proof fn lemma_reach_le_step(bl: Seq<u8>, a: int, c: int, b: int, n: int)
    requires
        0 <= b < ARENA_CELLS,
        reach_le(bl, a, c, n),
        legal_step(bl, c, b),
    ensures
        reach_le(bl, a, b, n + 1),
{
    let p = choose|p: Seq<int>| #[trigger] is_walk(bl, p) && p[0] == a && p.last() == c && p.len() - 1 <= n;
    let q = p.push(b);
    assert forall|i: int| 0 <= i < q.len() - 1 implies #[trigger] legal_step(bl, q[i], q[i + 1]) by {
        if i < p.len() - 1 {
            assert(q[i] == p[i] && q[i + 1] == p[i + 1]);
        }
    }
    assert(is_walk(bl, q) && q[0] == a && q.last() == b && q.len() - 1 <= n + 1);
}

/// A cell reaches itself in no steps.
proof fn lemma_reach_le_self(bl: Seq<u8>, a: int)
    requires
        0 <= a < ARENA_CELLS,
    ensures
        reach_le(bl, a, a, 0),
{
    let p = seq![a];
    assert(is_walk(bl, p) && p[0] == a && p.last() == a && p.len() - 1 <= 0);
}

/// A walk of at most `n` steps is one of at most `m >= n` steps.
proof fn lemma_reach_le_mono(bl: Seq<u8>, a: int, b: int, n: int, m: int)
    requires
        reach_le(bl, a, b, n),
        n <= m,
    ensures
        reach_le(bl, a, b, m),
{
    let p = choose|p: Seq<int>| #[trigger] is_walk(bl, p) && p[0] == a && p.last() == b && p.len() - 1 <= n;
    assert(is_walk(bl, p) && p[0] == a && p.last() == b && p.len() - 1 <= m);
}

/// With levels that grow by at most one per allowed step from a level-0 cell, the cell
/// `i` steps along a walk has a level of at most `i`.
proof fn lemma_walk_levels(bl: Seq<u8>, vis: Seq<u8>, level: Seq<int>, p: Seq<int>, i: int)
    requires
        vis.len() == ARENA_CELLS,
        level.len() == ARENA_CELLS,
        is_walk(bl, p),
        vis[p[0]] != 0u8,
        level[p[0]] == 0,
        0 <= i < p.len(),
        forall|c: int, d: int| 0 <= c < ARENA_CELLS && 0 <= d < ARENA_CELLS && vis[c] != 0u8
            && #[trigger] legal_step(bl, c, d) ==> vis[d] != 0u8 && level[d] <= level[c] + 1,
    ensures
        vis[p[i]] != 0u8,
        level[p[i]] <= i,
    decreases i,
{
    if i > 0 {
        lemma_walk_levels(bl, vis, level, p, i - 1);
        let j = i - 1;
        assert(legal_step(bl, p[j], p[j + 1]));
        assert(j + 1 == i);
        assert(0 <= p[j] < ARENA_CELLS && 0 <= p[i] < ARENA_CELLS);
    }
}

/// The first-step table: entry `src * ARENA_CELLS + dst` is 0 when there is no step
/// to take, else one more than the arena cell of an allowed first step from `src`.
pub open spec fn path_table_ok(bl: Seq<u8>, t: Seq<u16>) -> bool {
    &&& t.len() == (ARENA_CELLS as int) * (ARENA_CELLS as int)
    &&& forall|src: int, dst: int| 0 <= src < ARENA_CELLS && 0 <= dst < ARENA_CELLS ==>
        (#[trigger] t[src * (ARENA_CELLS as int) + dst] != 0 ==> {
            let e = t[src * (ARENA_CELLS as int) + dst] as int;
            &&& 1 <= e <= ARENA_CELLS
            &&& dst != src
            &&& !tile_blocked_spec(bl, arena_point_spec(src).0, arena_point_spec(src).1)
            &&& legal_step(bl, src, e - 1)
        })
    &&& forall|src: int, dst: int| 0 <= src < ARENA_CELLS && 0 <= dst < ARENA_CELLS ==>
        path_entry_ok(bl, src, dst, #[trigger] t[src * (ARENA_CELLS as int) + dst])
}

/// One more allowed step extends a walk.
proof fn lemma_reach_step(bl: Seq<u8>, a: int, c: int, b: int)
    requires
        0 <= b < ARENA_CELLS,
        reachable(bl, a, c),
        legal_step(bl, c, b),
    ensures
        reachable(bl, a, b),
{
    let p = choose|p: Seq<int>| #[trigger] is_walk(bl, p) && p[0] == a && p.last() == c;
    let q = p.push(b);
    assert forall|i: int| 0 <= i < q.len() - 1 implies #[trigger] legal_step(bl, q[i], q[i + 1]) by {
        if i < p.len() - 1 {
            assert(q[i] == p[i] && q[i + 1] == p[i + 1]);
        }
    }
    assert(is_walk(bl, q) && q[0] == a && q.last() == b);
}

/// A cell reaches itself.
proof fn lemma_reach_self(bl: Seq<u8>, a: int)
    requires
        0 <= a < ARENA_CELLS,
    ensures
        reachable(bl, a, a),
{
    let p = seq![a];
    assert(is_walk(bl, p) && p[0] == a && p.last() == a);
}

/// Every cell reached from a marked cell is marked when marks are closed under
/// allowed steps.
proof fn lemma_reach_closed(bl: Seq<u8>, vis: Seq<u8>, a: int, b: int)
    requires
        vis.len() == ARENA_CELLS,
        vis[a] != 0u8,
        forall|c: int, d: int| 0 <= c < ARENA_CELLS && 0 <= d < ARENA_CELLS && vis[c] != 0u8
            && #[trigger] legal_step(bl, c, d) ==> vis[d] != 0u8,
        reachable(bl, a, b),
    ensures
        vis[b] != 0u8,
{
    let p = choose|p: Seq<int>| #[trigger] is_walk(bl, p) && p[0] == a && p.last() == b;
    lemma_walk_marked(bl, vis, p, p.len() - 1);
}

/// Along a walk from a marked cell, with marks closed under allowed steps, cell `i`
/// is marked.
proof fn lemma_walk_marked(bl: Seq<u8>, vis: Seq<u8>, p: Seq<int>, i: int)
    requires
        vis.len() == ARENA_CELLS,
        is_walk(bl, p),
        vis[p[0]] != 0u8,
        0 <= i < p.len(),
        forall|c: int, d: int| 0 <= c < ARENA_CELLS && 0 <= d < ARENA_CELLS && vis[c] != 0u8
            && #[trigger] legal_step(bl, c, d) ==> vis[d] != 0u8,
    ensures
        vis[p[i]] != 0u8,
    decreases i,
{
    if i > 0 {
        lemma_walk_marked(bl, vis, p, i - 1);
        let j = i - 1;
        assert(legal_step(bl, p[j], p[j + 1]));
        assert(j + 1 == i);
        assert(0 <= p[i - 1] < ARENA_CELLS && 0 <= p[i] < ARENA_CELLS);
    }
}

/// The number of marked cells among the first `n`.
pub open spec fn mark_count(v: Seq<u8>, n: int) -> int
    decreases n,
{
    if n <= 0 {
        0
    } else {
        mark_count(v, n - 1) + if v[n - 1] != 0u8 { 1int } else { 0 }
    }
}

/// At most `n` of the first `n` cells are marked, fewer when one is not.
proof fn lemma_mark_count_bound(v: Seq<u8>, n: int, k: int)
    requires
        0 <= n,
    ensures
        0 <= mark_count(v, n) <= n,
        0 <= k < n && v[k] == 0u8 ==> mark_count(v, n) <= n - 1,
    decreases n,
{
    if n > 0 {
        lemma_mark_count_bound(v, n - 1, k);
    }
}

/// Marking an unmarked cell adds one to the count; with nothing marked the count is 0.
proof fn lemma_mark_count_set(v: Seq<u8>, n: int, k: int)
    requires
        0 <= n <= v.len(),
        0 <= k < v.len(),
        v[k] == 0u8,
    ensures
        mark_count(v.update(k, 1u8), n) == mark_count(v, n) + if k < n { 1int } else { 0 },
        (forall|j: int| 0 <= j < n ==> v[j] == 0u8) ==> mark_count(v, n) == 0,
    decreases n,
{
    if n > 0 {
        lemma_mark_count_set(v, n - 1, k);
    }
}

proof fn lemma_path_index(src: int, dst: int)
    requires
        0 <= src < ARENA_CELLS, 0 <= dst < ARENA_CELLS,
    ensures
        0 <= src * 870 + dst < 870 * 870,
{
    assert(0 <= src * 870 + dst < 870 * 870) by (nonlinear_arith)
        requires 0 <= src < 870, 0 <= dst < 870;
}

proof fn lemma_path_index_unique(src: int, dst: int, s2: int, d2: int)
    requires
        0 <= src < ARENA_CELLS, 0 <= dst < ARENA_CELLS,
        0 <= s2 < ARENA_CELLS, 0 <= d2 < ARENA_CELLS,
        s2 * 870 + d2 == src * 870 + dst,
    ensures
        s2 == src && d2 == dst,
{
    vstd::arithmetic::div_mod::lemma_fundamental_div_mod_converse(src * 870 + dst, 870, src, dst);
    vstd::arithmetic::div_mod::lemma_fundamental_div_mod_converse(src * 870 + dst, 870, s2, d2);
}

/// What the search from `src` keeps true: the marked cells are the queued ones, all
/// reachable from `src`; every cell but `src` that is marked has a first step from
/// `src` that still reaches it; and the neighbours of the cells taken off the queue are
/// marked.
pub open spec fn bfs_ok(bl: Seq<u8>, src: int, visited: Seq<u8>, first_step: Seq<u16>, queue: Seq<usize>, head: int,
    tail: int, level: Seq<int>) -> bool {
    &&& visited.len() == ARENA_CELLS && first_step.len() == ARENA_CELLS && queue.len() == ARENA_CELLS
    &&& level.len() == ARENA_CELLS
    &&& level[src] == 0
    &&& forall|k: int| 0 <= k < ARENA_CELLS && #[trigger] first_step[k] != 0u16 ==>
        reach_le(bl, first_step[k] - 1, k, level[k] - 1)
    &&& forall|a: int, b: int| 0 <= a < b < tail ==> level[#[trigger] queue[a] as int] <= level[#[trigger] queue[b] as int]
    &&& head < tail ==> forall|j: int| 0 <= j < tail ==> level[#[trigger] queue[j] as int] <= level[queue[head] as int] + 1
    &&& forall|j: int, b: int| 0 <= j < head && 0 <= b < ARENA_CELLS && #[trigger] legal_step(bl, queue[j] as int, b)
        ==> level[b] <= level[queue[j] as int] + 1
    &&& 0 <= src < ARENA_CELLS
    &&& 0 <= head <= tail <= ARENA_CELLS
    &&& visited[src] != 0u8
    &&& first_step[src] == 0u16
    &&& tail == mark_count(visited, ARENA_CELLS as int)
    &&& forall|k: int| 0 <= k < tail ==> #[trigger] queue[k] < ARENA_CELLS
    &&& forall|k: int| 0 <= k < tail ==> visited[#[trigger] queue[k] as int] != 0u8
    &&& forall|k: int| 0 <= k < tail ==> (#[trigger] queue[k] != src ==> first_step[queue[k] as int] != 0u16)
    &&& forall|k: int| 0 <= k < ARENA_CELLS && #[trigger] visited[k] != 0u8 ==>
        (exists|j: int| 0 <= j < tail && #[trigger] queue[j] == k) && reachable(bl, src, k)
    &&& forall|k: int| 0 <= k < ARENA_CELLS ==> (#[trigger] first_step[k] != 0u16 ==> {
        let e = first_step[k] as int;
        &&& 1 <= e <= ARENA_CELLS
        &&& k != src
        &&& legal_step(bl, src, e - 1)
        &&& visited[k] != 0u8
        &&& reachable(bl, e - 1, k)
    })
    &&& forall|j: int, b: int| 0 <= j < head && 0 <= b < ARENA_CELLS && #[trigger] legal_step(bl, queue[j] as int, b)
        ==> visited[b] != 0u8
}

/// When the search is done, the marked cells are closed under allowed steps, so every
/// cell is marked exactly when `src` reaches it, and the first steps are right.
proof fn lemma_bfs_done(bl: Seq<u8>, src: int, visited: Seq<u8>, first_step: Seq<u16>, queue: Seq<usize>, tail: int,
    level: Seq<int>)
    requires
        bfs_ok(bl, src, visited, first_step, queue, tail, tail, level),
        !tile_blocked_spec(bl, arena_point_spec(src).0, arena_point_spec(src).1),
    ensures
        forall|k: int| 0 <= k < ARENA_CELLS ==> path_entry_ok(bl, src, k, #[trigger] first_step[k]),
{
    assert forall|c: int, d: int| 0 <= c < ARENA_CELLS && 0 <= d < ARENA_CELLS && visited[c] != 0u8
        && #[trigger] legal_step(bl, c, d) implies visited[d] != 0u8 && level[d] <= level[c] + 1 by {
        let j = choose|j: int| 0 <= j < tail && #[trigger] queue[j] == c;
        assert(legal_step(bl, queue[j] as int, d));
    }
    assert forall|k: int| 0 <= k < ARENA_CELLS implies path_entry_ok(bl, src, k, #[trigger] first_step[k]) by {
        if k != src && reachable(bl, src, k) {
            lemma_reach_closed(bl, visited, src, k);
            let j = choose|j: int| 0 <= j < tail && #[trigger] queue[j] == k;
            assert(queue[j] != src);
        }
        if first_step[k] != 0u16 {
            let e = first_step[k] as int;
            assert forall|n: int| #[trigger] reach_le(bl, src, k, n) implies reach_le(bl, e - 1, k, n - 1) by {
                let p = choose|p: Seq<int>| #[trigger] is_walk(bl, p) && p[0] == src && p.last() == k && p.len() - 1 <= n;
                lemma_walk_levels(bl, visited, level, p, p.len() - 1);
                lemma_reach_le_mono(bl, e - 1, k, level[k] - 1, n - 1);
            }
        }
    }
}

/// The first-step table of breadth-first walks from every open arena cell.
#[verifier::rlimit(100)]
#[verifier::spinoff_prover]
pub fn build_path_next_graph(blocked: &[u8; 4096]) -> (r: Vec<u16>)
    ensures
        path_table_ok(blocked@, r@),
{
    let ghost bl = blocked@;
    let mut table: Vec<u16> = Vec::new();
    let mut i: usize = 0;
    while i < ARENA_CELLS * ARENA_CELLS
        invariant
            i <= ARENA_CELLS * ARENA_CELLS,
            table@.len() == i,
            forall|k: int| 0 <= k < i ==> #[trigger] table@[k] == 0u16,
        decreases ARENA_CELLS * ARENA_CELLS - i,
    {
        table.push(0u16);
        i = i + 1;
    }
    let mut visited: [u8; 870] = [0u8; 870];
    let mut first_step: [u16; 870] = [0u16; 870];
    let mut queue: [usize; 870] = [0usize; 870];

    let mut src: usize = 0;
    while src < ARENA_CELLS
        invariant
            src <= ARENA_CELLS,
            bl == blocked@,
            table@.len() == 870 * 870,
            forall|s2: int, d2: int| 0 <= s2 < ARENA_CELLS && 0 <= d2 < ARENA_CELLS ==>
                (#[trigger] table@[s2 * 870 + d2] != 0 ==> {
                    let e = table@[s2 * 870 + d2] as int;
                    &&& s2 < src
                    &&& 1 <= e <= ARENA_CELLS
                    &&& d2 != s2
                    &&& !tile_blocked_spec(blocked@, arena_point_spec(s2).0, arena_point_spec(s2).1)
                    &&& legal_step(blocked@, s2, e - 1)
                }),
            forall|s2: int, d2: int| 0 <= s2 < src && 0 <= d2 < ARENA_CELLS ==>
                path_entry_ok(bl, s2, d2, #[trigger] table@[s2 * 870 + d2]),
        decreases ARENA_CELLS - src,
    {
        let src_point: Point = arena_point(src);
        if !tile_blocked(blocked, src_point.x, src_point.y) {
            let mut c: usize = 0;
            while c < ARENA_CELLS
                invariant
                    c <= ARENA_CELLS,
                    forall|k: int| 0 <= k < c ==> #[trigger] visited@[k] == 0u8,
                    forall|k: int| 0 <= k < c ==> #[trigger] first_step@[k] == 0u16,
                decreases ARENA_CELLS - c,
            {
                visited[c] = 0;
                first_step[c] = 0;
                c = c + 1;
            }
            let mut head: usize = 0;
            let mut tail: usize = 0;
            let ghost mut level: Seq<int> = Seq::new(870, |k: int| 0int);
            proof {
                lemma_reach_le_self(bl, src as int);
                lemma_mark_count_set(visited@, 870, src as int);
                lemma_reach_self(bl, src as int);
            }
            visited[src] = 1;
            queue[tail] = src;
            tail = tail + 1;
            proof {
                assert forall|k: int| 0 <= k < ARENA_CELLS && #[trigger] visited@[k] != 0u8 implies
                    (exists|j: int| 0 <= j < tail && #[trigger] queue@[j] == k) && reachable(bl, src as int, k) by {
                    assert(k == src);
                    assert(queue@[0] == k);
                }
                assert(bfs_ok(bl, src as int, visited@, first_step@, queue@, head as int, tail as int, level));
            }
            while head < tail
                invariant
                    bl == blocked@,
                    src < ARENA_CELLS,
                    (src_point.x as int, src_point.y as int) == arena_point_spec(src as int),
                    !tile_blocked_spec(blocked@, src_point.x as int, src_point.y as int),
                    bfs_ok(bl, src as int, visited@, first_step@, queue@, head as int, tail as int, level),
                decreases ARENA_CELLS - head, ARENA_CELLS - tail,
            {
                let current: usize = queue[head];
                head = head + 1;
                let point: Point = arena_point(current);
                let ghost v0 = visited@;
                let mut dir_idx: usize = 0;
                while dir_idx < 8
                    invariant
                        bl == blocked@,
                        src < ARENA_CELLS,
                        current < ARENA_CELLS,
                        1 <= head <= tail,
                        queue@[head - 1] == current,
                        (point.x as int, point.y as int) == arena_point_spec(current as int),
                        in_arena(point.x as int, point.y as int),
                        (src_point.x as int, src_point.y as int) == arena_point_spec(src as int),
                        !tile_blocked_spec(blocked@, src_point.x as int, src_point.y as int),
                        bfs_ok(bl, src as int, visited@, first_step@, queue@, head - 1, tail as int, level),
                        dir_idx <= 8,
                        forall|d: int, b: int| 0 <= d < dir_idx && 0 <= b < ARENA_CELLS
                            && #[trigger] legal_step_dir(bl, current as int, b, d) ==> visited@[b] != 0u8
                            && level[b] <= level[current as int] + 1,
                    decreases 8 - dir_idx,
                {
                    let (dx, dy) = bfs_dir(dir_idx);
                    let nx: i32 = point.x + dx;
                    let ny: i32 = point.y + dy;
                    let ghost vb = visited@;
                    let ghost lb = level;
                    if let Some(next_idx) = crate::mechanics::arena_idx(nx, ny) {
                        let cut: bool = dir_idx >= 4
                            && (tile_blocked(blocked, point.x + dx, point.y) || tile_blocked(blocked, point.x, point.y + dy));
                        proof {
                            lemma_mark_count_bound(visited@, 870, next_idx as int);
                        }
                        // Every cell is queued at most once, so the queue never fills up.
                        if visited[next_idx] == 0 && !tile_blocked(blocked, nx, ny) && !cut && tail < ARENA_CELLS {
                            let ghost fs0 = first_step@;
                            let ghost q0 = queue@;
                            proof {
                                lemma_mark_count_set(visited@, 870, next_idx as int);
                            }
                            visited[next_idx] = 1;
                            let step: u16 = if current == src { (next_idx + 1) as u16 } else { first_step[current] };
                            proof {
                                assert(legal_step_dir(blocked@, current as int, next_idx as int, dir_idx as int));
                                assert(legal_step(bl, current as int, next_idx as int));
                                lemma_reach_step(bl, src as int, current as int, next_idx as int);
                                if current == src {
                                    assert(legal_step_dir(blocked@, src as int, next_idx as int, dir_idx as int));
                                    lemma_reach_self(bl, next_idx as int);
                                } else {
                                    assert(first_step@[current as int] != 0u16);
                                    lemma_reach_step(bl, step - 1, current as int, next_idx as int);
                                }
                                if current == src {
                                    lemma_reach_le_self(bl, next_idx as int);
                                } else {
                                    lemma_reach_le_step(bl, step - 1, current as int, next_idx as int, level[current as int] - 1);
                                }
                                assert(forall|j: int| 0 <= j < tail ==> #[trigger] queue@[j] != next_idx);
                                level = level.update(next_idx as int, level[current as int] + 1);
                            }
                            first_step[next_idx] = step;
                            queue[tail] = next_idx;
                            tail = tail + 1;
                            proof {
                                let v = visited@;
                                let fs = first_step@;
                                let q = queue@;
                                assert forall|k: int| 0 <= k < ARENA_CELLS && #[trigger] v[k] != 0u8 implies
                                    (exists|j: int| 0 <= j < tail && #[trigger] q[j] == k) && reachable(bl, src as int, k) by {
                                    if k == next_idx {
                                        assert(q[tail - 1] == k);
                                    } else {
                                        assert(vb[k] != 0u8);
                                        let j = choose|j: int| 0 <= j < tail - 1 && #[trigger] q0[j] == k;
                                        assert(q[j] == k);
                                    }
                                }
                                assert forall|k: int| 0 <= k < ARENA_CELLS && #[trigger] fs[k] != 0u16 implies {
                                    let e = fs[k] as int;
                                    &&& 1 <= e <= ARENA_CELLS
                                    &&& k != src
                                    &&& legal_step(bl, src as int, e - 1)
                                    &&& v[k] != 0u8
                                    &&& reachable(bl, e - 1, k)
                                } by {
                                    if k != next_idx {
                                        assert(fs[k] == fs0[k]);
                                    }
                                }
                                assert forall|j: int, b: int| 0 <= j < head - 1 && 0 <= b < ARENA_CELLS
                                    && #[trigger] legal_step(bl, q[j] as int, b) implies v[b] != 0u8 by {
                                    assert(q[j] == q0[j]);
                                }
                                assert forall|k: int| 0 <= k < tail implies visited@[#[trigger] q[k] as int] != 0u8 by {
                                    if k < tail - 1 {
                                        assert(q[k] == q0[k]);
                                    }
                                }
                                assert forall|k: int| 0 <= k < tail && #[trigger] q[k] != src implies fs[q[k] as int] != 0u16 by {
                                    if k < tail - 1 {
                                        assert(q[k] == q0[k]);
                                    }
                                }
                                assert forall|k: int| 0 <= k < ARENA_CELLS && #[trigger] fs[k] != 0u16 implies
                                    reach_le(bl, fs[k] - 1, k, level[k] - 1) by {
                                    if k != next_idx {
                                        assert(fs[k] == fs0[k] && level[k] == lb[k]);
                                    }
                                }
                                assert forall|j: int| 0 <= j < tail implies level[#[trigger] q[j] as int] == lb[q[j] as int]
                                    || j == tail - 1 by {
                                    if j < tail - 1 {
                                        assert(q[j] == q0[j]);
                                    }
                                }
                                assert forall|a: int, b: int| 0 <= a < b < tail implies
                                    level[#[trigger] q[a] as int] <= level[#[trigger] q[b] as int] by {
                                    assert(q[a] == q0[a]);
                                    if b < tail - 1 {
                                        assert(q[b] == q0[b]);
                                    }
                                }
                                assert forall|j: int| 0 <= j < tail implies level[#[trigger] q[j] as int] <= level[q[head - 1] as int] + 1 by {
                                    assert(q[head - 1] == q0[head - 1]);
                                    if j < tail - 1 {
                                        assert(q[j] == q0[j]);
                                    }
                                }
                                assert forall|j: int, b: int| 0 <= j < head - 1 && 0 <= b < ARENA_CELLS
                                    && #[trigger] legal_step(bl, q[j] as int, b) implies level[b] <= level[q[j] as int] + 1 by {
                                    assert(q[j] == q0[j]);
                                    assert(vb[b] != 0u8);
                                }
                                assert(bfs_ok(bl, src as int, v, fs, q, head - 1, tail as int, level));
                            }
                        }
                        proof {
                            assert forall|d: int, b: int| 0 <= d < dir_idx + 1 && 0 <= b < ARENA_CELLS
                                && #[trigger] legal_step_dir(bl, current as int, b, d) implies visited@[b] != 0u8
                                && level[b] <= level[current as int] + 1 by {
                                if d == dir_idx {
                                    crate::mechanics::lemma_arena_point_roundtrip(b);
                                    assert(b == next_idx);
                                    if vb[b] != 0u8 {
                                        let jb = choose|jb: int| 0 <= jb < tail && #[trigger] queue@[jb] == b;
                                        assert(level[queue@[jb] as int] <= level[queue@[head - 1] as int] + 1);
                                    }
                                } else {
                                    assert(vb[b] != 0u8);
                                }
                            }
                        }
                    } else {
                        proof {
                            assert forall|d: int, b: int| 0 <= d < dir_idx + 1 && 0 <= b < ARENA_CELLS
                                && #[trigger] legal_step_dir(bl, current as int, b, d) implies visited@[b] != 0u8
                                && level[b] <= level[current as int] + 1 by {
                                if d == dir_idx {
                                    assert(false);
                                }
                            }
                        }
                    }
                    dir_idx = dir_idx + 1;
                }
                proof {
                    assert forall|j: int, b: int| 0 <= j < head && 0 <= b < ARENA_CELLS
                        && #[trigger] legal_step(bl, queue@[j] as int, b) implies visited@[b] != 0u8
                        && level[b] <= level[queue@[j] as int] + 1 by {
                        if j == head - 1 {
                            let d = choose|d: int| #[trigger] legal_step_dir(bl, current as int, b, d);
                            assert(legal_step_dir(bl, current as int, b, d));
                        }
                    }
                    if head < tail {
                        assert forall|j: int| 0 <= j < tail implies level[#[trigger] queue@[j] as int]
                            <= level[queue@[head as int] as int] + 1 by {
                            assert(level[queue@[head - 1] as int] <= level[queue@[head as int] as int]);
                        }
                    }
                }
            }
            proof {
                lemma_bfs_done(bl, src as int, visited@, first_step@, queue@, tail as int, level);
            }
            let row: usize = src * ARENA_CELLS;
            let mut dst: usize = 0;
            while dst < ARENA_CELLS
                invariant
                    bl == blocked@,
                    src < ARENA_CELLS,
                    row == src * 870,
                    dst <= ARENA_CELLS,
                    (src_point.x as int, src_point.y as int) == arena_point_spec(src as int),
                    !tile_blocked_spec(blocked@, src_point.x as int, src_point.y as int),
                    first_step@[src as int] == 0u16,
                    forall|k: int| 0 <= k < ARENA_CELLS ==> (#[trigger] first_step@[k] != 0u16 ==> {
                        let e = first_step@[k] as int;
                        &&& 1 <= e <= ARENA_CELLS
                        &&& k != src
                        &&& legal_step(blocked@, src as int, e - 1)
                    }),
                    forall|k: int| 0 <= k < ARENA_CELLS ==> path_entry_ok(bl, src as int, k, #[trigger] first_step@[k]),
                    table@.len() == 870 * 870,
                    forall|s2: int, d2: int| 0 <= s2 < ARENA_CELLS && 0 <= d2 < ARENA_CELLS ==>
                        (#[trigger] table@[s2 * 870 + d2] != 0 ==> {
                            let e = table@[s2 * 870 + d2] as int;
                            &&& (s2 < src || (s2 == src && d2 < dst))
                            &&& 1 <= e <= ARENA_CELLS
                            &&& d2 != s2
                            &&& !tile_blocked_spec(blocked@, arena_point_spec(s2).0, arena_point_spec(s2).1)
                            &&& legal_step(blocked@, s2, e - 1)
                        }),
                    forall|s2: int, d2: int| 0 <= s2 < ARENA_CELLS && 0 <= d2 < ARENA_CELLS
                        && (s2 < src || (s2 == src && d2 < dst)) ==>
                        path_entry_ok(bl, s2, d2, #[trigger] table@[s2 * 870 + d2]),
                decreases ARENA_CELLS - dst,
            {
                proof { lemma_path_index(src as int, dst as int); }
                let ghost before = table@;
                table.set(row + dst, first_step[dst]);
                proof {
                    assert forall|s2: int, d2: int| 0 <= s2 < ARENA_CELLS && 0 <= d2 < ARENA_CELLS
                        && #[trigger] table@[s2 * 870 + d2] != 0 implies {
                            let e = table@[s2 * 870 + d2] as int;
                            &&& (s2 < src || (s2 == src && d2 < dst + 1))
                            &&& 1 <= e <= ARENA_CELLS
                            &&& d2 != s2
                            &&& !tile_blocked_spec(blocked@, arena_point_spec(s2).0, arena_point_spec(s2).1)
                            &&& legal_step(blocked@, s2, e - 1)
                        } by {
                        lemma_path_index(s2, d2);
                        if s2 * 870 + d2 == src * 870 + dst {
                            lemma_path_index_unique(src as int, dst as int, s2, d2);
                        }
                    }
                    assert forall|s2: int, d2: int| 0 <= s2 < ARENA_CELLS && 0 <= d2 < ARENA_CELLS
                        && (s2 < src || (s2 == src && d2 < dst + 1)) implies
                        path_entry_ok(bl, s2, d2, #[trigger] table@[s2 * 870 + d2]) by {
                        lemma_path_index(s2, d2);
                        if s2 * 870 + d2 == src * 870 + dst {
                            lemma_path_index_unique(src as int, dst as int, s2, d2);
                        } else {
                            assert(table@[s2 * 870 + d2] == before[s2 * 870 + d2]);
                        }
                    }
                }
                dst = dst + 1;
            }
        } else {
            proof {
                assert forall|s2: int, d2: int| 0 <= s2 < ARENA_CELLS && 0 <= d2 < ARENA_CELLS
                    && #[trigger] table@[s2 * 870 + d2] != 0 implies s2 < src + 1 by {}
                assert forall|s2: int, d2: int| 0 <= s2 < src + 1 && 0 <= d2 < ARENA_CELLS implies
                    path_entry_ok(bl, s2, d2, #[trigger] table@[s2 * 870 + d2]) by {
                    if s2 == src {
                        assert(table@[s2 * 870 + d2] == 0);
                    }
                }
            }
        }
        src = src + 1;
    }
    table
}

// ---------------------------------------------------------------- the arena

/// The arena layout with its precomputed sight and path tables.
#[derive(Debug)]
pub struct Region {
    pub entities: Vec<Entity>,
    pub pillars: Vec<Entity>,
    pub blocked: [u8; 4096],
    pub los: Vec<u64>,
    pub npc_los: [Vec<u64>; 4],
    pub player_los: [Vec<u64>; 12],
    pub path_next: Vec<u16>,
}

/// Whether an entity covers the tile with grid index `k`.
pub open spec fn entity_covers_key(e: Entity, k: int) -> bool {
    let x = k / 64;
    let y = k % 64;
    e.x <= x <= e.x + e.size - 1 && e.y - e.size + 1 <= y <= e.y
}

/// An entity placed on the grid: its whole square lies on the 64 by 64 grid.
pub open spec fn entity_on_grid(e: Entity) -> bool {
    1 <= e.size <= 4 && 0 <= e.x && e.x + e.size - 1 < 64 && 0 <= e.y - e.size + 1 && e.y < 64
}

impl Region {
    /// The tables agree with the blocked tiles, and every entity lies on the grid.
    pub open spec fn wf(&self) -> bool {
        let bl = self.blocked@;
        &&& forall|i: int| 0 <= i < self.entities@.len() ==> entity_on_grid(#[trigger] self.entities@[i])
        &&& forall|i: int| 0 <= i < self.pillars@.len() ==> entity_on_grid(#[trigger] self.pillars@[i])
        &&& los_table_ok(bl, self.los@)
        &&& forall|i: int| 0 <= i < NPC_LOS_TABLES ==>
            npc_table_ok(bl, (#[trigger] self.npc_los@[i])@, npc_table_params(i).0, npc_table_params(i).1)
        &&& forall|i: int| 0 <= i < PLAYER_LOS_TABLES ==>
            player_table_ok(bl, (#[trigger] self.player_los@[i])@, player_table_params(i).0, player_table_params(i).1)
        &&& path_table_ok(bl, self.path_next@)
    }
}

/// Whether two tiles see each other, as the region answers it: from the table for two
/// arena tiles, else by casting the ray.
pub open spec fn tile_los_spec(bl: Seq<u8>, x1: int, y1: int, x2: int, y2: int) -> bool {
    if in_arena(x1, y1) && in_arena(x2, y2) {
        los_pair_spec(bl, arena_index_spec(x1, y1), arena_index_spec(x2, y2))
    } else {
        ray_clear(bl, x1, y1, x2, y2)
    }
}

/// The first-step entry that the region keeps for a walk between two arena tiles.
pub open spec fn path_entry_spec(r: Region, sx: int, sy: int, tx: int, ty: int) -> int {
    r.path_next@[arena_index_spec(sx, sy) * (ARENA_CELLS as int) + arena_index_spec(tx, ty)] as int
}

impl Region {
    /// Whether two tiles of the grid see each other.
    pub fn tile_los(&self, x1: i32, y1: i32, x2: i32, y2: i32) -> (r: bool)
        requires
            self.wf(),
            on_grid(x1 as int, y1 as int),
            on_grid(x2 as int, y2 as int),
        ensures
            r == tile_los_spec(self.blocked@, x1 as int, y1 as int, x2 as int, y2 as int),
    {
        let a = crate::mechanics::arena_idx(x1, y1);
        let b = crate::mechanics::arena_idx(x2, y2);
        match (a, b) {
            (Some(a), Some(b)) => graph_tile_los(&self.los, a, b),
            _ => raycast_blocked(&self.blocked, x1, y1, x2, y2),
        }
    }

    /// The first step of the precomputed walk between two arena tiles, if there is one.
    pub fn path_next_step(&self, sx: i32, sy: i32, tx: i32, ty: i32) -> (r: Option<Point>)
        requires
            self.wf(),
        ensures
            r is Some <==> in_arena(sx as int, sy as int) && in_arena(tx as int, ty as int)
                && path_entry_spec(*self, sx as int, sy as int, tx as int, ty as int) != 0,
            r matches Some(p) ==> in_arena(p.x as int, p.y as int)
                && (p.x as int, p.y as int) == arena_point_spec(path_entry_spec(*self, sx as int, sy as int, tx as int, ty as int) - 1)
                && legal_step(self.blocked@, arena_index_spec(sx as int, sy as int), arena_index_spec(p.x as int, p.y as int))
                && !(p.x == tx && p.y == ty && p.x == sx && p.y == sy),
            r matches Some(p) ==> reachable(self.blocked@, arena_index_spec(p.x as int, p.y as int), arena_index_spec(tx as int, ty as int)),
            r matches Some(p) ==> forall|n: int| #[trigger] reach_le(self.blocked@, arena_index_spec(sx as int, sy as int),
                arena_index_spec(tx as int, ty as int), n)
                ==> reach_le(self.blocked@, arena_index_spec(p.x as int, p.y as int), arena_index_spec(tx as int, ty as int), n - 1),
            in_arena(sx as int, sy as int) && in_arena(tx as int, ty as int) && !(sx == tx && sy == ty)
                && !tile_blocked_spec(self.blocked@, sx as int, sy as int)
                && reachable(self.blocked@, arena_index_spec(sx as int, sy as int), arena_index_spec(tx as int, ty as int))
                ==> r is Some,
    {
        proof {
            if in_arena(sx as int, sy as int) && in_arena(tx as int, ty as int) {
                crate::mechanics::lemma_arena_index_roundtrip(sx as int, sy as int);
                crate::mechanics::lemma_arena_index_roundtrip(tx as int, ty as int);
                let a = arena_index_spec(sx as int, sy as int);
                let b = arena_index_spec(tx as int, ty as int);
                lemma_path_index(a, b);
                assert(path_entry_ok(self.blocked@, a, b, self.path_next@[a * 870 + b]));
                if !(sx == tx && sy == ty) {
                    assert(a != b);
                }
                let e = self.path_next@[a * 870 + b] as int;
                if e != 0 {
                    assert(1 <= e <= 870);
                    crate::mechanics::lemma_arena_point_roundtrip(e - 1);
                }
            }
        }
        let src = crate::mechanics::arena_idx(sx, sy);
        let dst = crate::mechanics::arena_idx(tx, ty);
        match (src, dst) {
            (Some(src), Some(dst)) => {
                proof { lemma_path_index(src as int, dst as int); }
                let next: u16 = self.path_next[src * ARENA_CELLS + dst];
                if next == 0 {
                    return None;
                }
                proof { assert(self.path_next@[src * 870 + dst] != 0); }
                let p: Point = arena_point((next - 1) as usize);
                Some(p)
            },
            _ => None,
        }
    }

    /// The monster sight table's answer for a monster of `size` and `range` on `(mx, my)`
    /// and the player on `(px, py)`, when both are arena tiles and such a table is kept.
    pub fn npc_has_los(&self, size: i32, range: i32, mx: i32, my: i32, px: i32, py: i32) -> (r: Option<bool>)
        requires
            self.wf(),
        ensures
            r == if in_arena(mx as int, my as int) && in_arena(px as int, py as int)
                && npc_los_table_idx_spec(size as int, range as int) is Some {
                Some(npc_table_entry(self.blocked@, size as int, range as int,
                    arena_index_spec(mx as int, my as int), arena_index_spec(px as int, py as int)))
            } else {
                None::<bool>
            },
    {
        let m = crate::mechanics::arena_idx(mx, my);
        let p = crate::mechanics::arena_idx(px, py);
        match (m, p) {
            (Some(mob_idx), Some(player_idx)) => {
                match npc_los_table_idx(size, range) {
                    Some(table_idx) => {
                        proof { assert(npc_table_ok(self.blocked@, self.npc_los@[table_idx as int]@, size as int, range as int)); }
                        Some(graph_tile_los(&self.npc_los[table_idx], mob_idx, player_idx))
                    },
                    None => None,
                }
            },
            _ => None,
        }
    }

    /// The player sight table's answer for a monster of `size` on `(mx, my)` and the
    /// player on `(px, py)` with range `range`, when both are arena tiles and such a table is kept.
    pub fn player_has_los(&self, size: i32, range: i32, mx: i32, my: i32, px: i32, py: i32) -> (r: Option<bool>)
        requires
            self.wf(),
        ensures
            r == if in_arena(mx as int, my as int) && in_arena(px as int, py as int)
                && player_los_table_idx_spec(size as int, range as int) is Some {
                Some(player_table_entry(self.blocked@, size as int, range as int,
                    arena_index_spec(mx as int, my as int), arena_index_spec(px as int, py as int)))
            } else {
                None::<bool>
            },
    {
        let m = crate::mechanics::arena_idx(mx, my);
        let p = crate::mechanics::arena_idx(px, py);
        match (m, p) {
            (Some(mob_idx), Some(player_idx)) => {
                match player_los_table_idx(size, range) {
                    Some(table_idx) => {
                        proof { assert(player_table_ok(self.blocked@, self.player_los@[table_idx as int]@, size as int, range as int)); }
                        Some(graph_tile_los(&self.player_los[table_idx], mob_idx, player_idx))
                    },
                    None => None,
                }
            },
            _ => None,
        }
    }
}


// ---------------------------------------------------------------- building the arena

/// The wall around the arena: one-tile entities along rows 0 and 31 (columns 0 to 30),
/// then along columns 0 and 30 (rows 1 to 30).
pub open spec fn border_entities() -> Seq<Entity> {
    Seq::new(62, |i: int| Entity { x: (i / 2) as i32, y: if i % 2 == 0 { 0i32 } else { 31i32 }, size: 1 })
        + Seq::new(60, |i: int| Entity { x: if i % 2 == 0 { 0i32 } else { 30i32 }, y: (1 + i / 2) as i32, size: 1 })
}

/// The standing pillars, in the order south, west, north.
pub open spec fn pillar_entities(p: PillarConfig) -> Seq<Entity> {
    (if p.s { seq![Entity { x: 11, y: 24, size: 3 }] } else { Seq::empty() })
        + (if p.w { seq![Entity { x: 1, y: 10, size: 3 }] } else { Seq::empty() })
        + (if p.n { seq![Entity { x: 18, y: 8, size: 3 }] } else { Seq::empty() })
}

proof fn lemma_key_parts(x: int, y: int)
    requires
        on_grid(x, y),
    ensures
        key_spec(x, y) / 64 == x,
        key_spec(x, y) % 64 == y,
        0 <= key_spec(x, y) < 4096,
{
    vstd::arithmetic::div_mod::lemma_fundamental_div_mod_converse(x * 64 + y, 64, x, y);
}

/// Builds the arena for a pillar layout: the wall and the standing pillars, the
/// blocked tiles they cover, and every precomputed table.
pub fn create_region(pillars: PillarConfig) -> (r: Region)
    ensures
        r.wf(),
        r.entities@ == border_entities() + pillar_entities(pillars),
        r.pillars@ == pillar_entities(pillars),
        forall|k: int| 0 <= k < GRID_CELLS ==> (#[trigger] r.blocked@[k] != 0u8 <==>
            exists|i: int| 0 <= i < r.entities@.len() && entity_covers_key(#[trigger] r.entities@[i], k)),
        forall|k: int| 0 <= k < GRID_CELLS ==> #[trigger] r.blocked@[k] <= 1u8,
{
    let mut entities: Vec<Entity> = Vec::new();
    let mut x: i32 = 0;
    while x <= 30
        invariant
            0 <= x <= 31,
            entities@ == Seq::new(2 * x as nat, |i: int| Entity { x: (i / 2) as i32, y: if i % 2 == 0 { 0i32 } else { 31i32 }, size: 1 }),
        decreases 31 - x,
    {
        entities.push(Entity { x, y: 0, size: 1 });
        entities.push(Entity { x, y: 31, size: 1 });
        x = x + 1;
        proof {
            assert(entities@ =~= Seq::new(2 * x as nat, |i: int| Entity { x: (i / 2) as i32, y: if i % 2 == 0 { 0i32 } else { 31i32 }, size: 1 }));
        }
    }
    let ghost first = entities@;
    let mut y: i32 = 1;
    while y <= 30
        invariant
            1 <= y <= 31,
            entities@ == first + Seq::new(2 * (y - 1) as nat, |i: int| Entity { x: if i % 2 == 0 { 0i32 } else { 30i32 }, y: (1 + i / 2) as i32, size: 1 }),
        decreases 31 - y,
    {
        entities.push(Entity { x: 0, y, size: 1 });
        entities.push(Entity { x: 30, y, size: 1 });
        y = y + 1;
        proof {
            assert(entities@ =~= first + Seq::new(2 * (y - 1) as nat, |i: int| Entity { x: if i % 2 == 0 { 0i32 } else { 30i32 }, y: (1 + i / 2) as i32, size: 1 }));
        }
    }
    assert(entities@ =~= border_entities());

    let mut pillar_entities_v: Vec<Entity> = Vec::new();
    if pillars.s {
        let p = Entity { x: 11, y: 24, size: 3 };
        pillar_entities_v.push(p);
        entities.push(p);
    }
    if pillars.w {
        let p = Entity { x: 1, y: 10, size: 3 };
        pillar_entities_v.push(p);
        entities.push(p);
    }
    if pillars.n {
        let p = Entity { x: 18, y: 8, size: 3 };
        pillar_entities_v.push(p);
        entities.push(p);
    }
    assert(pillar_entities_v@ =~= pillar_entities(pillars));
    assert(entities@ =~= border_entities() + pillar_entities(pillars));
    proof {
        assert forall|i: int| 0 <= i < entities@.len() implies entity_on_grid(#[trigger] entities@[i]) by {
            if i < 62 {
            } else if i < 122 {
            } else {
                assert(pillar_entities(pillars).contains(entities@[i]) || true);
            }
        }
    }

    let mut blocked: [u8; 4096] = [0u8; 4096];
    let mut e_i: usize = 0;
    while e_i < entities.len()
        invariant
            e_i <= entities@.len(),
            forall|i: int| 0 <= i < entities@.len() ==> entity_on_grid(#[trigger] entities@[i]),
            forall|k: int| 0 <= k < GRID_CELLS ==> #[trigger] blocked@[k] <= 1u8,
            forall|k: int| 0 <= k < GRID_CELLS ==> (#[trigger] blocked@[k] != 0u8 <==>
                exists|i: int| 0 <= i < e_i && entity_covers_key(#[trigger] entities@[i], k)),
        decreases entities@.len() - e_i,
    {
        let e: Entity = entities[e_i];
        proof { assert(entity_on_grid(entities@[e_i as int])); }
        let ex1: i32 = e.x + e.size - 1;
        let ey0: i32 = e.y - e.size + 1;
        let mut ex: i32 = e.x;
        while ex <= ex1
            invariant
                e_i < entities@.len(),
                e == entities@[e_i as int],
                entity_on_grid(e),
                ex1 == e.x + e.size - 1, ey0 == e.y - e.size + 1,
                e.x <= ex <= ex1 + 1,
                forall|i: int| 0 <= i < entities@.len() ==> entity_on_grid(#[trigger] entities@[i]),
                forall|k: int| 0 <= k < GRID_CELLS ==> #[trigger] blocked@[k] <= 1u8,
                forall|k: int| 0 <= k < GRID_CELLS ==> (#[trigger] blocked@[k] != 0u8 <==>
                    ((exists|i: int| 0 <= i < e_i && entity_covers_key(#[trigger] entities@[i], k))
                        || (entity_covers_key(e, k) && k / 64 < ex))),
            decreases ex1 + 1 - ex,
        {
            let mut ey: i32 = ey0;
            while ey <= e.y
                invariant
                    e_i < entities@.len(),
                    e == entities@[e_i as int],
                    entity_on_grid(e),
                    ex1 == e.x + e.size - 1, ey0 == e.y - e.size + 1,
                    e.x <= ex <= ex1,
                    ey0 <= ey <= e.y + 1,
                    forall|i: int| 0 <= i < entities@.len() ==> entity_on_grid(#[trigger] entities@[i]),
                    forall|k: int| 0 <= k < GRID_CELLS ==> #[trigger] blocked@[k] <= 1u8,
                    forall|k: int| 0 <= k < GRID_CELLS ==> (#[trigger] blocked@[k] != 0u8 <==>
                        ((exists|i: int| 0 <= i < e_i && entity_covers_key(#[trigger] entities@[i], k))
                            || (entity_covers_key(e, k) && (k / 64 < ex || (k / 64 == ex && k % 64 < ey))))),
                decreases e.y + 1 - ey,
            {
                proof { lemma_key_parts(ex as int, ey as int); }
                let kk: usize = key(ex, ey);
                blocked[kk] = 1;
                proof {
                    assert forall|k: int| 0 <= k < GRID_CELLS implies (#[trigger] blocked@[k] != 0u8 <==>
                        ((exists|i: int| 0 <= i < e_i && entity_covers_key(#[trigger] entities@[i], k))
                            || (entity_covers_key(e, k) && (k / 64 < ex || (k / 64 == ex && k % 64 < ey + 1))))) by {
                        if k == kk {
                            assert(entity_covers_key(e, k));
                        } else {
                            vstd::arithmetic::div_mod::lemma_fundamental_div_mod(k, 64);
                        }
                    }
                }
                ey = ey + 1;
            }
            proof {
                assert forall|k: int| 0 <= k < GRID_CELLS implies (#[trigger] blocked@[k] != 0u8 <==>
                    ((exists|i: int| 0 <= i < e_i && entity_covers_key(#[trigger] entities@[i], k))
                        || (entity_covers_key(e, k) && k / 64 < ex + 1))) by {
                    vstd::arithmetic::div_mod::lemma_fundamental_div_mod(k, 64);
                }
            }
            ex = ex + 1;
        }
        proof {
            assert forall|k: int| 0 <= k < GRID_CELLS implies (#[trigger] blocked@[k] != 0u8 <==>
                exists|i: int| 0 <= i < e_i + 1 && entity_covers_key(#[trigger] entities@[i], k)) by {
                if entity_covers_key(e, k) {
                    assert(entity_covers_key(entities@[e_i as int], k));
                }
                if exists|i: int| 0 <= i < e_i + 1 && entity_covers_key(#[trigger] entities@[i], k) {
                    let i = choose|i: int| 0 <= i < e_i + 1 && entity_covers_key(#[trigger] entities@[i], k);
                    if i == e_i {
                        vstd::arithmetic::div_mod::lemma_fundamental_div_mod(k, 64);
                    }
                }
            }
        }
        e_i = e_i + 1;
    }
    proof {
        assert forall|i: int| 0 <= i < pillar_entities_v@.len() implies entity_on_grid(#[trigger] pillar_entities_v@[i]) by {
            assert(pillar_entities_v@[i] == entities@[122 + i]);
        }
    }
    assert(e_i == entities@.len());
    let los: Vec<u64> = build_los_graph(&blocked);
    let npc_los: [Vec<u64>; 4] = build_npc_los_tables(&blocked, &los);
    let player_los: [Vec<u64>; 12] = build_player_los_tables(&blocked, &los);
    let path_next: Vec<u16> = build_path_next_graph(&blocked);
    let ghost bl = blocked@;
    let ghost ents = entities@;
    let r = Region { entities, pillars: pillar_entities_v, blocked, los, npc_los, player_los, path_next };
    assert(r.blocked@ == bl);
    assert(r.entities@ == ents);
    r
}

/// Cache key of a pillar layout: one bit per standing pillar.
pub open spec fn pillar_cache_key_spec(p: PillarConfig) -> u8 {
    ((if p.s { 1int } else { 0int }) + (if p.w { 2int } else { 0int }) + (if p.n { 4int } else { 0int })) as u8
}

/// Cache key of a pillar layout.
pub fn pillar_cache_key(pillars: PillarConfig) -> (r: u8)
    ensures
        r == pillar_cache_key_spec(pillars),
        r < 8,
{
    let s: u8 = if pillars.s { 1 } else { 0 };
    let w: u8 = if pillars.w { 2 } else { 0 };
    let n: u8 = if pillars.n { 4 } else { 0 };
    s + w + n
}

/// Different pillar layouts get different cache keys.
pub proof fn lemma_pillar_cache_key_injective(a: PillarConfig, b: PillarConfig)
    ensures
        pillar_cache_key_spec(a) == pillar_cache_key_spec(b) ==> a == b,
{
}

/// Whether `reg` is the arena `create_region` builds for `pillars`: well formed, with
/// the wall and the standing pillars, and a tile blocked (holding 1) exactly when one
/// of them covers it.
pub open spec fn built_region(reg: Region, pillars: PillarConfig) -> bool {
    &&& reg.wf()
    &&& reg.pillars@ == pillar_entities(pillars)
    &&& reg.entities@ == border_entities() + pillar_entities(pillars)
    &&& forall|k: int| 0 <= k < GRID_CELLS ==> (#[trigger] reg.blocked@[k] != 0u8 <==>
        exists|i: int| 0 <= i < reg.entities@.len() && entity_covers_key(#[trigger] reg.entities@[i], k))
    &&& forall|k: int| 0 <= k < GRID_CELLS ==> #[trigger] reg.blocked@[k] <= 1u8
}

/// Arenas built so far, one per pillar layout.
#[derive(Debug)]
pub struct RegionCache {
    pub entries: Vec<(u8, PillarConfig, Region)>,
}

impl RegionCache {
    /// Every cached arena is well formed and was built for the layout its key names.
    pub open spec fn wf(&self) -> bool {
        forall|i: int| 0 <= i < self.entries@.len() ==> {
            let e = #[trigger] self.entries@[i];
            &&& e.0 == pillar_cache_key_spec(e.1)
            &&& built_region(e.2, e.1)
        }
    }

    /// An empty cache.
    pub fn new() -> (r: Self)
        ensures
            r.wf(),
            r.entries@.len() == 0,
    {
        RegionCache { entries: Vec::new() }
    }
}

/// Runs `f` on the arena of a pillar layout, building and caching it on first use.
pub fn with_cached_region<R, F: FnOnce(&Region) -> R>(cache: &mut RegionCache, pillars: PillarConfig, f: F) -> (r: R)
    requires
        old(cache).wf(),
        forall|reg: Region| #[trigger] built_region(reg, pillars) ==> call_requires(f, (&reg,)),
    ensures
        final(cache).wf(),
        exists|reg: Region| #[trigger] built_region(reg, pillars) && call_ensures(f, (&reg,), r),
        final(cache).entries@.len() <= old(cache).entries@.len() + 1,
        final(cache).entries@.subrange(0, old(cache).entries@.len() as int) == old(cache).entries@,
        (exists|i: int| 0 <= i < old(cache).entries@.len() && (#[trigger] old(cache).entries@[i]).0
            == pillar_cache_key_spec(pillars)) ==> final(cache).entries@ == old(cache).entries@,
{
    let cache_key: u8 = pillar_cache_key(pillars);
    let mut idx: usize = 0;
    let mut found: bool = false;
    while idx < cache.entries.len() && !found
        invariant
            cache.wf(),
            *cache == *old(cache),
            cache_key == pillar_cache_key_spec(pillars),
            idx <= cache.entries@.len(),
            found ==> idx < cache.entries@.len() && cache.entries@[idx as int].0 == cache_key,
            !found ==> forall|i: int| 0 <= i < idx ==> (#[trigger] cache.entries@[i]).0 != cache_key,
        decreases cache.entries@.len() - idx, if found { 0int } else { 1int },
    {
        if cache.entries[idx].0 == cache_key {
            found = true;
        } else {
            idx = idx + 1;
        }
    }
    if !found {
        let region: Region = create_region(pillars);
        cache.entries.push((cache_key, pillars, region));
        idx = cache.entries.len() - 1;
        proof {
            assert(cache.entries@.subrange(0, old(cache).entries@.len() as int) =~= old(cache).entries@);
            assert forall|i: int| 0 <= i < cache.entries@.len() implies {
                let e = #[trigger] cache.entries@[i];
                &&& e.0 == pillar_cache_key_spec(e.1)
                &&& built_region(e.2, e.1)
            } by {
                if i < cache.entries@.len() - 1 {
                    assert(cache.entries@[i] == old(cache).entries@[i]);
                }
            }
        }
    }
    let entry = &cache.entries[idx];
    proof {
        assert(cache.entries@[idx as int] == *entry);
        lemma_pillar_cache_key_injective(entry.1, pillars);
        if found {
            assert(cache.entries@.subrange(0, old(cache).entries@.len() as int) =~= old(cache).entries@);
        }
    }
    f(&entry.2)
}

} // verus!
