use vstd::prelude::*;

use crate::constants::{ARENA_CELLS, ARENA_W, ARENA_X_MIN, ARENA_X_MAX, ARENA_Y_MIN, ARENA_Y_MAX, GRID_CELLS};
use crate::types::{Entity, MobType, Point, Style};
use crate::runtime::{Mob, Player, coord_ok, geom_bound, mob_geom_ok, player_pos_ok};
use crate::loadout::Loadout;

verus! {

// ---------------------------------------------------------------- monster stats

/// Footprint side length of a monster kind.
pub open spec fn mob_size_spec(t: MobType) -> int {
    match t {
        MobType::Mager => 4,
        MobType::Ranger => 3,
        MobType::Meleer => 4,
        MobType::Blob => 3,
        MobType::Bat => 2,
        MobType::Nibbler => 1,
        _ => 1,
    }
}

/// Starting hitpoints of a monster kind.
pub open spec fn mob_hp_spec(t: MobType) -> int {
    match t {
        MobType::Mager => 220,
        MobType::Ranger => 125,
        MobType::Meleer => 75,
        MobType::Blob => 40,
        MobType::Bat => 25,
        MobType::Nibbler => 10,
        _ => 15,
    }
}

/// Attack period (ticks) of a monster kind.
pub open spec fn mob_atk_speed_spec(t: MobType) -> int {
    match t {
        MobType::Blob | MobType::Bat => 3,
        _ => 4,
    }
}

/// Attack range of a monster kind.
pub open spec fn mob_range_spec(t: MobType) -> int {
    match t {
        MobType::Meleer | MobType::Nibbler | MobType::BlobletMelee => 1,
        MobType::Bat => 4,
        _ => 15,
    }
}

/// Attack style of a monster kind.
pub open spec fn mob_style_spec(t: MobType) -> Style {
    match t {
        MobType::Mager | MobType::BlobletMage => Style::Magic,
        MobType::Ranger | MobType::Bat | MobType::BlobletRange => Style::Range,
        MobType::Meleer | MobType::Nibbler | MobType::BlobletMelee => Style::Melee,
        MobType::Blob => Style::Blob,
    }
}

/// Footprint side length of a monster kind.
pub fn mob_size(t: MobType) -> (r: i32)
    ensures
        r == mob_size_spec(t),
        1 <= r <= 4,
{
    match t {
        MobType::Mager => 4,
        MobType::Ranger => 3,
        MobType::Meleer => 4,
        MobType::Blob => 3,
        MobType::Bat => 2,
        MobType::Nibbler => 1,
        MobType::BlobletMage | MobType::BlobletRange | MobType::BlobletMelee => 1,
    }
}

/// Starting hitpoints of a monster kind.
pub fn mob_hp(t: MobType) -> (r: i32)
    ensures
        r == mob_hp_spec(t),
        10 <= r <= 220,
{
    match t {
        MobType::Mager => 220,
        MobType::Ranger => 125,
        MobType::Meleer => 75,
        MobType::Blob => 40,
        MobType::Bat => 25,
        MobType::Nibbler => 10,
        MobType::BlobletMage | MobType::BlobletRange | MobType::BlobletMelee => 15,
    }
}

/// Attack period of a monster kind.
pub fn mob_atk_speed(t: MobType) -> (r: i32)
    ensures
        r == mob_atk_speed_spec(t),
        3 <= r <= 4,
{
    match t {
        MobType::Blob | MobType::Bat => 3,
        _ => 4,
    }
}

/// Attack range of a monster kind.
pub fn mob_range(t: MobType) -> (r: i32)
    ensures
        r == mob_range_spec(t),
{
    match t {
        MobType::Meleer | MobType::Nibbler | MobType::BlobletMelee => 1,
        MobType::Bat => 4,
        _ => 15,
    }
}

/// Attack style of a monster kind.
pub fn mob_style(t: MobType) -> (r: Style)
    ensures
        r == mob_style_spec(t),
{
    match t {
        MobType::Mager | MobType::BlobletMage => Style::Magic,
        MobType::Ranger | MobType::Bat | MobType::BlobletRange => Style::Range,
        MobType::Meleer | MobType::Nibbler | MobType::BlobletMelee => Style::Melee,
        MobType::Blob => Style::Blob,
    }
}

/// Only the meleer digs.
pub fn mob_has_dig(t: MobType) -> (r: bool)
    ensures
        r == (t == MobType::Meleer),
{
    t == MobType::Meleer
}

/// Only the mager flickers (and revives).
pub fn mob_has_flicker(t: MobType) -> (r: bool)
    ensures
        r == (t == MobType::Mager),
{
    t == MobType::Mager
}

// ---------------------------------------------------------------- geometry

/// Small enough for every coordinate computation of this module.
pub open spec fn small(v: int) -> bool {
    -0x20000000 <= v <= 0x20000000
}

/// Whether the square of side `s` at `(x, y)` overlaps the square of side `s2` at `(x2, y2)`.
pub open spec fn collides_spec(x: int, y: int, s: int, x2: int, y2: int, s2: int) -> bool {
    !(x > x2 + s2 - 1 || x + s - 1 < x2 || y - s + 1 > y2 || y < y2 - s2 + 1)
}

/// Overlap test of two squares.
pub fn collision_math(x: i32, y: i32, s: i32, x2: i32, y2: i32, s2: i32) -> (r: bool)
    requires
        small(x as int), small(y as int), small(s as int),
        small(x2 as int), small(y2 as int), small(s2 as int),
    ensures
        r == collides_spec(x as int, y as int, s as int, x2 as int, y2 as int, s2 as int),
{
    !(x > x2 + s2 - 1 || x + s - 1 < x2 || y - s + 1 > y2 || y < y2 - s2 + 1)
}

/// Overlap is symmetric.
pub proof fn lemma_collides_symmetric(x: int, y: int, s: int, x2: int, y2: int, s2: int)
    ensures
        collides_spec(x, y, s, x2, y2, s2) == collides_spec(x2, y2, s2, x, y, s),
{
}

/// Absolute value.
pub open spec fn abs_spec(v: int) -> int {
    if v < 0 { -v } else { v }
}

/// Larger of two integers.
pub open spec fn max_spec(a: int, b: int) -> int {
    if a >= b { a } else { b }
}

/// Smaller of two integers.
pub open spec fn min_spec(a: int, b: int) -> int {
    if a <= b { a } else { b }
}

/// Chebyshev (king-move) distance.
pub open spec fn chebyshev_spec(x1: int, y1: int, x2: int, y2: int) -> int {
    max_spec(abs_spec(x2 - x1), abs_spec(y2 - y1))
}

/// Chebyshev distance between two tiles.
pub fn chebyshev(x1: i32, y1: i32, x2: i32, y2: i32) -> (d: i32)
    requires
        small(x1 as int), small(y1 as int), small(x2 as int), small(y2 as int),
    ensures
        d == chebyshev_spec(x1 as int, y1 as int, x2 as int, y2 as int),
        d >= 0,
{
    let dx: i32 = if x2 - x1 < 0 { x1 - x2 } else { x2 - x1 };
    let dy: i32 = if y2 - y1 < 0 { y1 - y2 } else { y2 - y1 };
    if dx >= dy { dx } else { dy }
}

/// The Chebyshev distance is a metric: zero exactly on equal tiles, symmetric,
/// and obeys the triangle inequality.
pub proof fn lemma_chebyshev_metric(x1: int, y1: int, x2: int, y2: int, x3: int, y3: int)
    ensures
        chebyshev_spec(x1, y1, x2, y2) >= 0,
        chebyshev_spec(x1, y1, x2, y2) == 0 <==> (x1 == x2 && y1 == y2),
        chebyshev_spec(x1, y1, x2, y2) == chebyshev_spec(x2, y2, x1, y1),
        chebyshev_spec(x1, y1, x3, y3) <= chebyshev_spec(x1, y1, x2, y2) + chebyshev_spec(x2, y2, x3, y3),
{
}

/// Whether `(x, y)` lies on the 64 by 64 grid.
pub open spec fn on_grid(x: int, y: int) -> bool {
    0 <= x < 64 && 0 <= y < 64
}

/// Grid index of a tile: `x * 64 + y`.
pub open spec fn key_spec(x: int, y: int) -> int {
    x * 64 + y
}

/// Grid index of a tile of the grid.
pub fn key(x: i32, y: i32) -> (r: usize)
    requires
        on_grid(x as int, y as int),
    ensures
        r == key_spec(x as int, y as int),
        r < GRID_CELLS,
{
    let xu: u32 = x as u32;
    let yu: u32 = y as u32;
    assert(((xu << 6u32) | yu) == xu * 64 + yu) by (bit_vector)
        requires xu < 64, yu < 64;
    ((xu << 6u32) | yu) as usize
}

/// Whether `(x, y)` is an arena tile.
pub open spec fn in_arena(x: int, y: int) -> bool {
    ARENA_X_MIN <= x <= ARENA_X_MAX && ARENA_Y_MIN <= y <= ARENA_Y_MAX
}

/// Arena cell index of an arena tile (row-major from the top-left arena corner).
pub open spec fn arena_index_spec(x: int, y: int) -> int {
    (y - ARENA_Y_MIN) * (ARENA_W as int) + (x - ARENA_X_MIN)
}

/// Tile of an arena cell index.
pub open spec fn arena_point_spec(idx: int) -> (int, int) {
    (ARENA_X_MIN + idx % (ARENA_W as int), ARENA_Y_MIN + idx / (ARENA_W as int))
}

/// Arena tiles and arena cell indices correspond one to one.
pub proof fn lemma_arena_index_roundtrip(x: int, y: int)
    requires
        in_arena(x, y),
    ensures
        0 <= arena_index_spec(x, y) < ARENA_CELLS,
        arena_point_spec(arena_index_spec(x, y)) == (x, y),
{
    let i = arena_index_spec(x, y);
    assert(0 <= i < 870) by (nonlinear_arith)
        requires i == (y - 1) * 29 + (x - 1), 1 <= x <= 29, 1 <= y <= 30;
    vstd::arithmetic::div_mod::lemma_fundamental_div_mod_converse(i, 29, y - 1, x - 1);
}

/// Every arena cell index is the index of its tile, which is an arena tile.
pub proof fn lemma_arena_point_roundtrip(idx: int)
    requires
        0 <= idx < ARENA_CELLS,
    ensures
        in_arena(arena_point_spec(idx).0, arena_point_spec(idx).1),
        arena_index_spec(arena_point_spec(idx).0, arena_point_spec(idx).1) == idx,
{
    vstd::arithmetic::div_mod::lemma_fundamental_div_mod(idx, 29);
    assert(0 <= idx / 29 < 30) by (nonlinear_arith)
        requires 0 <= idx < 870;
}

/// Arena cell index of a tile, if it is an arena tile.
pub fn arena_idx(x: i32, y: i32) -> (r: Option<usize>)
    ensures
        r is Some <==> in_arena(x as int, y as int),
        r matches Some(i) ==> i == arena_index_spec(x as int, y as int) && i < ARENA_CELLS
            && arena_point_spec(i as int) == (x as int, y as int),
{
    if !(ARENA_X_MIN <= x && x <= ARENA_X_MAX) || !(ARENA_Y_MIN <= y && y <= ARENA_Y_MAX) {
        return None;
    }
    proof { lemma_arena_index_roundtrip(x as int, y as int); }
    Some(arena_idx_unchecked(x, y))
}

/// Arena cell index of an arena tile.
pub fn arena_idx_unchecked(x: i32, y: i32) -> (r: usize)
    requires
        in_arena(x as int, y as int),
    ensures
        r == arena_index_spec(x as int, y as int),
        r < ARENA_CELLS,
{
    proof { lemma_arena_index_roundtrip(x as int, y as int); }
    ((y - ARENA_Y_MIN) as usize) * ARENA_W + (x - ARENA_X_MIN) as usize
}

/// Tile of an arena cell index.
pub fn arena_point(idx: usize) -> (r: Point)
    requires
        idx < ARENA_CELLS,
    ensures
        (r.x as int, r.y as int) == arena_point_spec(idx as int),
        in_arena(r.x as int, r.y as int),
        arena_index_spec(r.x as int, r.y as int) == idx,
{
    proof { lemma_arena_point_roundtrip(idx as int); }
    Point { x: ARENA_X_MIN + (idx % ARENA_W) as i32, y: ARENA_Y_MIN + (idx / ARENA_W) as i32 }
}

/// Sign of an integer.
pub open spec fn sign_spec(v: int) -> int {
    if v > 0 { 1 } else if v < 0 { -1 } else { 0 }
}

/// Sign of an integer.
pub fn sign(v: i32) -> (r: i32)
    ensures
        r == sign_spec(v as int),
{
    if v > 0 {
        1
    } else if v < 0 {
        -1
    } else {
        0
    }
}

/// The tile of a monster's footprint nearest to `(tx, ty)` (clamped per axis).
pub open spec fn closest_tile_spec(mx: int, my: int, s: int, tx: int, ty: int) -> (int, int) {
    (max_spec(mx, min_spec(tx, mx + s - 1)), max_spec(my - s + 1, min_spec(ty, my)))
}

/// The tile of a monster's footprint nearest to `(tx, ty)`.
pub fn closest_tile_to(mob: &Mob, tx: i32, ty: i32) -> (r: Point)
    requires
        mob_geom_ok(*mob),
        small(tx as int), small(ty as int),
    ensures
        (r.x as int, r.y as int) == closest_tile_spec(mob.x as int, mob.y as int, mob.size as int, tx as int, ty as int),
        mob.x <= r.x <= mob.x + mob.size - 1,
        mob.y - mob.size + 1 <= r.y <= mob.y,
{
    let hx: i32 = mob.x + mob.size - 1;
    let cx0: i32 = if tx <= hx { tx } else { hx };
    let cx: i32 = if mob.x >= cx0 { mob.x } else { cx0 };
    let ly: i32 = mob.y - mob.size + 1;
    let cy0: i32 = if ty <= mob.y { ty } else { mob.y };
    let cy: i32 = if ly >= cy0 { ly } else { cy0 };
    Point { x: cx, y: cy }
}

/// Chebyshev distance from a tile to a monster's footprint.
pub open spec fn dist_to_mob_spec(px: int, py: int, m: Mob) -> int {
    let c = closest_tile_spec(m.x as int, m.y as int, m.size as int, px, py);
    chebyshev_spec(px, py, c.0, c.1)
}

/// Chebyshev distance from a tile to a monster's footprint.
pub fn dist_to_mob(px: i32, py: i32, mob: &Mob) -> (r: i32)
    requires
        mob_geom_ok(*mob),
        small(px as int), small(py as int),
    ensures
        r == dist_to_mob_spec(px as int, py as int, *mob),
        r >= 0,
{
    let ct: Point = closest_tile_to(mob, px, py);
    chebyshev(px, py, ct.x, ct.y)
}

/// An entity whose numbers stay small.
pub open spec fn entity_ok(e: Entity) -> bool {
    small(e.x as int) && small(e.y as int) && small(e.size as int)
}

/// Whether the square of side `s` at `(x, y)` overlaps one of `entities`.
pub fn collides_with_entities(x: i32, y: i32, s: i32, entities: &[Entity]) -> (r: bool)
    requires
        small(x as int), small(y as int), small(s as int),
        forall|i: int| 0 <= i < entities@.len() ==> entity_ok(#[trigger] entities@[i]),
    ensures
        r == exists|i: int| 0 <= i < entities@.len() && #[trigger] collides_spec(x as int, y as int, s as int,
            entities@[i].x as int, entities@[i].y as int, entities@[i].size as int),
{
    let mut i: usize = 0;
    while i < entities.len()
        invariant
            i <= entities@.len(),
            small(x as int), small(y as int), small(s as int),
            forall|k: int| 0 <= k < entities@.len() ==> entity_ok(#[trigger] entities@[k]),
            forall|k: int| 0 <= k < i ==> !#[trigger] collides_spec(x as int, y as int, s as int,
                entities@[k].x as int, entities@[k].y as int, entities@[k].size as int),
        decreases entities@.len() - i,
    {
        let e: Entity = entities[i];
        proof { assert(entity_ok(entities@[i as int])); }
        if collision_math(x, y, s, e.x, e.y, e.size) {
            return true;
        }
        i = i + 1;
    }
    false
}

/// The parent blob of the excluded monster, if any.
pub open spec fn exclude_parent_spec(mobs: Seq<Mob>, exclude_idx: Option<usize>) -> Option<usize> {
    match exclude_idx {
        Some(e) => if e < mobs.len() { mobs[e as int].parent_blob_id } else { None },
        None => None,
    }
}

/// Whether monster `idx` blocks the square of side `s` at `(x, y)`: it is not the
/// excluded monster, not dead, not a dying parent blob of the excluded monster, not a
/// skipped nibbler, and its footprint overlaps the square.
pub open spec fn mob_blocks(mobs: Seq<Mob>, idx: int, x: int, y: int, s: int, exclude_idx: Option<usize>, skip_nibblers: bool) -> bool {
    let m = mobs[idx];
    &&& exclude_idx != Some(idx as usize)
    &&& !m.dead
    &&& !(exclude_parent_spec(mobs, exclude_idx) == Some(m.id) && m.dying > 0)
    &&& !(skip_nibblers && m.mob_type == MobType::Nibbler)
    &&& collides_spec(x, y, s, m.x as int, m.y as int, m.size as int)
}

/// All monsters keep their geometry in range.
pub open spec fn mobs_geom_ok(mobs: Seq<Mob>) -> bool {
    forall|i: int| 0 <= i < mobs.len() ==> mob_geom_ok(#[trigger] mobs[i])
}

/// The first monster that blocks the square of side `s` at `(x, y)`.
pub fn collides_with_mobs(
    x: i32,
    y: i32,
    s: i32,
    mobs: &[Mob],
    exclude_idx: Option<usize>,
    skip_nibblers: bool,
) -> (r: Option<usize>)
    requires
        small(x as int), small(y as int), 1 <= s, geom_bound(s as int),
        mobs_geom_ok(mobs@),
    ensures
        r matches Some(i) ==> i < mobs@.len() && mob_blocks(mobs@, i as int, x as int, y as int, s as int, exclude_idx, skip_nibblers)
            && forall|k: int| 0 <= k < i ==> !#[trigger] mob_blocks(mobs@, k, x as int, y as int, s as int, exclude_idx, skip_nibblers),
        r is None ==> forall|k: int| 0 <= k < mobs@.len() ==> !#[trigger] mob_blocks(mobs@, k, x as int, y as int, s as int, exclude_idx, skip_nibblers),
{
    let exclude_parent: Option<usize> = match exclude_idx {
        Some(e) => if e < mobs.len() { mobs[e].parent_blob_id } else { None },
        None => None,
    };
    let mut idx: usize = 0;
    while idx < mobs.len()
        invariant
            idx <= mobs@.len(),
            mobs_geom_ok(mobs@),
            small(x as int), small(y as int), 1 <= s, geom_bound(s as int),
            exclude_parent == exclude_parent_spec(mobs@, exclude_idx),
            forall|k: int| 0 <= k < idx ==> !#[trigger] mob_blocks(mobs@, k, x as int, y as int, s as int, exclude_idx, skip_nibblers),
        decreases mobs@.len() - idx,
    {
        let m: &Mob = &mobs[idx];
        proof { assert(mob_geom_ok(mobs@[idx as int])); }
        let skip: bool = exclude_idx == Some(idx) || m.dead
            || (exclude_parent == Some(m.id) && m.dying > 0)
            || (skip_nibblers && m.mob_type == MobType::Nibbler);
        if !skip {
            let collides: bool = if s == 1 {
                x >= m.x && x < m.x + m.size && y <= m.y && y > m.y - m.size
            } else {
                collision_math(x, y, s, m.x, m.y, m.size)
            };
            if collides {
                return Some(idx);
            }
        }
        idx = idx + 1;
    }
    None
}

// ---------------------------------------------------------------- occupancy

/// Whether bit `i` of `w` is set.
pub open spec fn occ_bit(w: u64, i: int) -> bool {
    (w >> (i as u64)) & 1u64 == 1u64
}

/// Whether a monster's footprint covers arena cell `c`.
pub open spec fn covers_cell(m: Mob, c: int) -> bool {
    let p = arena_point_spec(c);
    &&& m.x <= p.0 <= m.x + m.size - 1
    &&& m.y - m.size + 1 <= p.1 <= m.y
}

/// The occupancy grid records exactly the living monsters among the first 64:
/// bit `i` of cell `c` is set iff monster `i` exists, is not dead and covers `c`.
pub open spec fn occupancy_consistent(mobs: Seq<Mob>, occ: Seq<u64>) -> bool {
    &&& occ.len() == ARENA_CELLS
    &&& forall|c: int, i: int| 0 <= c < ARENA_CELLS && 0 <= i < 64 ==>
        (#[trigger] occ_bit(occ[c], i) <==> (i < mobs.len() && !mobs[i].dead && covers_cell(mobs[i], c)))
}

pub proof fn lemma_bit_or(w: u64, k: u64, i: u64)
    requires
        k < 64, i < 64,
    ensures
        ((w | (1u64 << k)) >> i) & 1u64 == if i == k { 1u64 } else { (w >> i) & 1u64 },
{
    assert(((w | (1u64 << k)) >> i) & 1u64 == if i == k { 1u64 } else { (w >> i) & 1u64 }) by (bit_vector)
        requires k < 64, i < 64;
}

pub proof fn lemma_bit_clear(w: u64, k: u64, i: u64)
    requires
        k < 64, i < 64,
    ensures
        ((w & !(1u64 << k)) >> i) & 1u64 == if i == k { 0u64 } else { (w >> i) & 1u64 },
{
    assert(((w & !(1u64 << k)) >> i) & 1u64 == if i == k { 0u64 } else { (w >> i) & 1u64 }) by (bit_vector)
        requires k < 64, i < 64;
}

pub proof fn lemma_bit_values(w: u64, i: u64)
    requires
        i < 64,
    ensures
        (w >> i) & 1u64 == 0u64 || (w >> i) & 1u64 == 1u64,
        (0u64 >> i) & 1u64 == 0u64,
{
    assert((w >> i) & 1u64 == 0u64 || (w >> i) & 1u64 == 1u64) by (bit_vector);
    assert((0u64 >> i) & 1u64 == 0u64) by (bit_vector);
}

/// Occupancy bit of monster slot `idx` (none beyond the 64 tracked slots).
pub fn mob_occupancy_mask(idx: usize) -> (r: u64)
    ensures
        idx < 64 ==> r == (1u64 << (idx as u64)) && r != 0,
        idx >= 64 ==> r == 0,
{
    if idx < 64 {
        let k: u64 = idx as u64;
        assert((1u64 << k) != 0) by (bit_vector)
            requires k < 64;
        1u64 << k
    } else {
        0
    }
}

/// The occupancy word of a cell after adding (or removing) a monster's bit.
pub open spec fn occ_update(w: u64, idx: int, add: bool) -> u64 {
    if add { w | (1u64 << (idx as u64)) } else { w & !(1u64 << (idx as u64)) }
}

/// Sets (or clears) the bit of monster slot `idx` on every arena cell that its footprint
/// covers; a dead monster, or a slot beyond 64, changes nothing.
pub fn update_mob_occupancy(occupancy: &mut [u64; 870], idx: usize, mob: &Mob, add: bool)
    requires
        mob_geom_ok(*mob),
    ensures
        forall|c: int| 0 <= c < ARENA_CELLS ==> #[trigger] final(occupancy)@[c] ==
            if !mob.dead && idx < 64 && covers_cell(*mob, c) { occ_update(old(occupancy)@[c], idx as int, add) } else { old(occupancy)@[c] },
{
    if mob.dead {
        return;
    }
    let mask: u64 = mob_occupancy_mask(idx);
    if mask == 0 {
        return;
    }
    let ghost orig = occupancy@;
    proof {
        assert forall|w: u64| #[trigger] occ_update(occ_update(w, idx as int, add), idx as int, add) == occ_update(w, idx as int, add) by {
            let k = idx as u64;
            if add {
                assert((w | (1u64 << k)) | (1u64 << k) == w | (1u64 << k)) by (bit_vector);
            } else {
                assert((w & !(1u64 << k)) & !(1u64 << k) == w & !(1u64 << k)) by (bit_vector);
            }
        }
    }
    let mut ox: i32 = 0;
    while ox < mob.size
        invariant
            0 <= ox <= mob.size,
            mob_geom_ok(*mob),
            !mob.dead, idx < 64, mask == (1u64 << (idx as u64)),
            forall|w: u64| #[trigger] occ_update(occ_update(w, idx as int, add), idx as int, add) == occ_update(w, idx as int, add),
            forall|c: int| 0 <= c < ARENA_CELLS ==> #[trigger] occupancy@[c] ==
                if covers_cell(*mob, c) && arena_point_spec(c).0 < mob.x + ox { occ_update(orig[c], idx as int, add) } else { orig[c] },
        decreases mob.size - ox,
    {
        let mut oy: i32 = 0;
        while oy < mob.size
            invariant
                0 <= ox < mob.size,
                0 <= oy <= mob.size,
                mob_geom_ok(*mob),
                !mob.dead, idx < 64, mask == (1u64 << (idx as u64)),
                forall|w: u64| #[trigger] occ_update(occ_update(w, idx as int, add), idx as int, add) == occ_update(w, idx as int, add),
                forall|c: int| 0 <= c < ARENA_CELLS ==> #[trigger] occupancy@[c] ==
                    if covers_cell(*mob, c) && (arena_point_spec(c).0 < mob.x + ox
                        || (arena_point_spec(c).0 == mob.x + ox && arena_point_spec(c).1 > mob.y - oy)) {
                        occ_update(orig[c], idx as int, add)
                    } else { orig[c] },
            decreases mob.size - oy,
        {
            if let Some(cell) = arena_idx(mob.x + ox, mob.y - oy) {
                let ghost before = occupancy@;
                if add {
                    occupancy[cell] = occupancy[cell] | mask;
                } else {
                    occupancy[cell] = occupancy[cell] & !mask;
                }
                proof {
                    assert forall|c: int| 0 <= c < ARENA_CELLS implies #[trigger] occupancy@[c] ==
                        if covers_cell(*mob, c) && (arena_point_spec(c).0 < mob.x + ox
                            || (arena_point_spec(c).0 == mob.x + ox && arena_point_spec(c).1 > mob.y - (oy + 1))) {
                            occ_update(orig[c], idx as int, add)
                        } else { orig[c] } by {
                        if c != cell {
                            lemma_arena_point_roundtrip(c);
                            lemma_arena_point_roundtrip(cell as int);
                            assert(arena_point_spec(c) != arena_point_spec(cell as int));
                        }
                    }
                }
            } else {
                proof {
                    assert forall|c: int| 0 <= c < ARENA_CELLS implies #[trigger] occupancy@[c] ==
                        if covers_cell(*mob, c) && (arena_point_spec(c).0 < mob.x + ox
                            || (arena_point_spec(c).0 == mob.x + ox && arena_point_spec(c).1 > mob.y - (oy + 1))) {
                            occ_update(orig[c], idx as int, add)
                        } else { orig[c] } by {
                        lemma_arena_point_roundtrip(c);
                    }
                }
            }
            oy = oy + 1;
        }
        ox = ox + 1;
    }
}

/// Rebuilds the occupancy grid from scratch for `mobs`.
pub fn rebuild_mob_occupancy(mobs: &[Mob], occupancy: &mut [u64; 870])
    requires
        mobs_geom_ok(mobs@),
    ensures
        occupancy_consistent(mobs@, final(occupancy)@),
{
    let mut c: usize = 0;
    while c < ARENA_CELLS
        invariant
            c <= ARENA_CELLS,
            forall|k: int| 0 <= k < c ==> #[trigger] occupancy@[k] == 0u64,
        decreases ARENA_CELLS - c,
    {
        occupancy[c] = 0;
        c = c + 1;
    }
    proof {
        assert forall|c: int, i: int| 0 <= c < ARENA_CELLS && 0 <= i < 64 implies
            !#[trigger] occ_bit(occupancy@[c], i) by {
            lemma_bit_values(occupancy@[c], i as u64);
        }
    }
    let mut idx: usize = 0;
    while idx < mobs.len()
        invariant
            idx <= mobs@.len(),
            mobs_geom_ok(mobs@),
            occupancy@.len() == ARENA_CELLS,
            forall|c: int, i: int| 0 <= c < ARENA_CELLS && 0 <= i < 64 ==>
                (#[trigger] occ_bit(occupancy@[c], i) <==> (i < idx && i < mobs@.len() && !mobs@[i].dead && covers_cell(mobs@[i], c))),
        decreases mobs@.len() - idx,
    {
        let ghost before = occupancy@;
        proof { assert(mob_geom_ok(mobs@[idx as int])); }
        update_mob_occupancy(occupancy, idx, &mobs[idx], true);
        proof {
            assert forall|c: int, i: int| 0 <= c < ARENA_CELLS && 0 <= i < 64 implies
                (#[trigger] occ_bit(occupancy@[c], i) <==> (i < idx + 1 && i < mobs@.len() && !mobs@[i].dead && covers_cell(mobs@[i], c))) by {
                let m = mobs@[idx as int];
                assert(occ_bit(before[c], i) <==> (i < idx && i < mobs@.len() && !mobs@[i].dead && covers_cell(mobs@[i], c)));
                if !m.dead && idx < 64 && covers_cell(m, c) {
                    assert(occupancy@[c] == before[c] | (1u64 << (idx as u64)));
                    lemma_bit_or(before[c], idx as u64, i as u64);
                } else {
                    assert(occupancy@[c] == before[c]);
                    if i == idx {
                        assert(!(i < idx && i < mobs@.len() && !mobs@[i].dead && covers_cell(mobs@[i], c)));
                    }
                }
                lemma_bit_values(before[c], i as u64);
            }
        }
        idx = idx + 1;
    }
    proof {
        assert forall|c: int, i: int| 0 <= c < ARENA_CELLS && 0 <= i < 64 implies
            (#[trigger] occ_bit(occupancy@[c], i) <==> (i < mobs@.len() && !mobs@[i].dead && covers_cell(mobs@[i], c))) by {
        }
    }
}


// ---------------------------------------------------------------- projectile travel

/// Ticks until a projectile lands, from a table of hit ticks by distance (distances
/// below 1 count as 1, distances past the table as its last entry).
pub open spec fn hit_tick_delay_spec(list: Seq<i32>, dist: int) -> int {
    let d = max_spec(dist, 1);
    list[min_spec(d, list.len() as int) - 1] - 1
}

/// Ticks until a projectile lands, read from a table of hit ticks by distance.
pub fn delay_from_hit_tick_list(list: &[i32], dist: i32) -> (r: i32)
    requires
        list@.len() >= 1,
        forall|i: int| 0 <= i < list@.len() ==> -1000 <= #[trigger] list@[i] <= 1000,
    ensures
        r == hit_tick_delay_spec(list@, dist as int),
{
    let d: i32 = if dist >= 1 { dist } else { 1 };
    let du: usize = d as usize;
    let i: usize = if du <= list.len() { du } else { list.len() };
    list[i - 1] - 1
}

/// Hit ticks of the mager's magic by distance.
pub open spec fn mager_hit_ticks() -> Seq<i32> {
    seq![2i32, 2, 2, 3, 3, 3, 3, 4, 4, 4, 4, 5, 5, 5, 5, 6]
}

/// Hit ticks of the ranger's arrows by distance.
pub open spec fn ranger_hit_ticks() -> Seq<i32> {
    seq![3i32, 3, 3, 3, 3, 4, 4, 4, 4, 5, 5, 5, 6, 6, 6, 6]
}

/// Hit ticks of the bat's attack by distance.
pub open spec fn bat_hit_ticks() -> Seq<i32> {
    seq![2i32, 2, 2, 3, 3]
}

/// Hit ticks of the blob's ranged attack by distance.
pub open spec fn blob_range_hit_ticks() -> Seq<i32> {
    seq![2i32, 2, 2, 3, 3, 3, 3, 4, 4, 4, 5, 5, 5, 5, 6, 6]
}

/// Tile from which a monster's projectile leaves.
pub open spec fn projectile_origin_spec(m: Mob) -> (int, int) {
    match m.mob_type {
        MobType::Mager => (m.x + 2, m.y - 2),
        MobType::Ranger | MobType::Blob => (m.x + 1, m.y - 1),
        _ => (m.x as int, m.y as int),
    }
}

/// Tile from which a monster's projectile leaves.
pub fn monster_projectile_origin(mob: &Mob) -> (r: Point)
    requires
        mob_geom_ok(*mob),
    ensures
        (r.x as int, r.y as int) == projectile_origin_spec(*mob),
{
    match mob.mob_type {
        MobType::Mager => Point { x: mob.x + 2, y: mob.y - 2 },
        MobType::Bat => Point { x: mob.x, y: mob.y },
        MobType::Ranger | MobType::Blob => Point { x: mob.x + 1, y: mob.y - 1 },
        _ => Point { x: mob.x, y: mob.y },
    }
}

/// Chebyshev distance from a tile to a monster's projectile origin.
pub open spec fn projectile_distance_spec(px: int, py: int, m: Mob) -> int {
    chebyshev_spec(px, py, projectile_origin_spec(m).0, projectile_origin_spec(m).1)
}

/// Chebyshev distance from a tile to a monster's projectile origin.
pub fn monster_projectile_distance(px: i32, py: i32, mob: &Mob) -> (r: i32)
    requires
        mob_geom_ok(*mob),
        small(px as int), small(py as int),
    ensures
        r == projectile_distance_spec(px as int, py as int, *mob),
        r >= 0,
{
    let origin: Point = monster_projectile_origin(mob);
    chebyshev(px, py, origin.x, origin.y)
}

/// Travel time of ranged attacks by distance.
pub open spec fn ranged_delay_spec(dist: int) -> int {
    if dist <= 4 { 2 } else if dist <= 8 { 3 } else if dist <= 11 { 4 } else { 5 }
}

/// Travel time of magic attacks by distance.
pub open spec fn magic_delay_spec(dist: int) -> int {
    if dist <= 6 { 2 } else if dist <= 10 { 3 } else if dist <= 14 { 4 } else { 5 }
}

/// Travel time of ranged attacks by distance.
pub fn ranged_delay(dist: i32) -> (r: i32)
    ensures
        r == ranged_delay_spec(dist as int),
{
    if dist <= 4 {
        2
    } else if dist <= 8 {
        3
    } else if dist <= 11 {
        4
    } else {
        5
    }
}

/// Travel time of magic attacks by distance.
pub fn magic_delay(dist: i32) -> (r: i32)
    ensures
        r == magic_delay_spec(dist as int),
{
    if dist <= 6 {
        2
    } else if dist <= 10 {
        3
    } else if dist <= 14 {
        4
    } else {
        5
    }
}

/// Ticks until a monster attack in `style` reaches the player at `(px, py)`.
pub open spec fn monster_projectile_delay_spec(m: Mob, style: Style, px: int, py: int) -> int {
    let od = projectile_distance_spec(px, py, m);
    if style == Style::Melee {
        1
    } else {
        match m.mob_type {
            MobType::Mager => hit_tick_delay_spec(mager_hit_ticks(), od),
            MobType::Ranger => hit_tick_delay_spec(ranger_hit_ticks(), od),
            MobType::Bat => hit_tick_delay_spec(bat_hit_ticks(), od),
            MobType::Blob => if style == Style::Range {
                hit_tick_delay_spec(blob_range_hit_ticks(), od)
            } else {
                hit_tick_delay_spec(mager_hit_ticks(), od)
            },
            MobType::BlobletRange => magic_delay_spec(dist_to_mob_spec(px, py, m)),
            _ => if style == Style::Range {
                ranged_delay_spec(dist_to_mob_spec(px, py, m))
            } else {
                magic_delay_spec(dist_to_mob_spec(px, py, m))
            },
        }
    }
}

/// Ticks until a monster attack in `style` reaches the player.
pub fn monster_projectile_delay(mob: &Mob, style: Style, player: &Player) -> (r: i32)
    requires
        mob_geom_ok(*mob),
        player_pos_ok(*player),
    ensures
        r == monster_projectile_delay_spec(*mob, style, player.x as int, player.y as int),
        1 <= r <= 5,
{
    if style == Style::Melee {
        return 1;
    }
    let origin_dist: i32 = monster_projectile_distance(player.x, player.y, mob);
    let mager: [i32; 16] = [2, 2, 2, 3, 3, 3, 3, 4, 4, 4, 4, 5, 5, 5, 5, 6];
    assert(mager@ =~= mager_hit_ticks());
    match mob.mob_type {
        MobType::Mager => delay_from_hit_tick_list(&mager, origin_dist),
        MobType::Ranger => {
            let ranger: [i32; 16] = [3, 3, 3, 3, 3, 4, 4, 4, 4, 5, 5, 5, 6, 6, 6, 6];
            assert(ranger@ =~= ranger_hit_ticks());
            delay_from_hit_tick_list(&ranger, origin_dist)
        },
        MobType::Bat => {
            let bat: [i32; 5] = [2, 2, 2, 3, 3];
            assert(bat@ =~= bat_hit_ticks());
            delay_from_hit_tick_list(&bat, origin_dist)
        },
        MobType::Blob => {
            if style == Style::Range {
                let blob: [i32; 16] = [2, 2, 2, 3, 3, 3, 3, 4, 4, 4, 5, 5, 5, 5, 6, 6];
                assert(blob@ =~= blob_range_hit_ticks());
                delay_from_hit_tick_list(&blob, origin_dist)
            } else {
                delay_from_hit_tick_list(&mager, origin_dist)
            }
        },
        MobType::BlobletRange => magic_delay(dist_to_mob(player.x, player.y, mob)),
        _ => {
            let edge_dist: i32 = dist_to_mob(player.x, player.y, mob);
            if style == Style::Range {
                ranged_delay(edge_dist)
            } else {
                magic_delay(edge_dist)
            }
        },
    }
}

/// Ticks until a player attack reaches its target.
pub open spec fn player_projectile_delay_spec(l: Loadout, px: int, py: int, t: Mob) -> int {
    if l.atk_speed == 2 {
        2
    } else if l.is_blood_barrage {
        let sw = chebyshev_spec(px, py, t.x as int, t.y as int);
        if sw <= 1 { 2 } else if sw <= 3 { 3 } else if sw <= 7 { 4 } else { 5 }
    } else {
        if dist_to_mob_spec(px, py, t) <= 2 { 2 } else { 3 }
    }
}

/// Ticks until a player attack from `(px, py)` reaches `target`.
pub fn player_projectile_delay(loadout: &Loadout, px: i32, py: i32, target: &Mob) -> (r: i32)
    requires
        mob_geom_ok(*target),
        small(px as int), small(py as int),
    ensures
        r == player_projectile_delay_spec(*loadout, px as int, py as int, *target),
        2 <= r <= 5,
{
    if loadout.atk_speed == 2 {
        return 2;
    }
    if loadout.is_blood_barrage {
        let sw_dist: i32 = chebyshev(px, py, target.x, target.y);
        if sw_dist <= 1 {
            2
        } else if sw_dist <= 3 {
            3
        } else if sw_dist <= 7 {
            4
        } else {
            5
        }
    } else {
        let dist: i32 = dist_to_mob(px, py, target);
        if dist <= 2 {
            2
        } else {
            3
        }
    }
}

} // verus!
