use vstd::prelude::*;

use crate::constants::{ARENA_X_MIN, ARENA_X_MAX, ARENA_Y_MIN, ARENA_Y_MAX, bfs_dir, bfs_dir_spec};
use crate::types::{MobType, Point};
use crate::constants::ARENA_CELLS;
use crate::runtime::{Mob, Player, coord_ok, geom_bound, mob_geom_ok, player_pos_ok};
use crate::mechanics::{
    abs_spec, arena_index_spec, arena_point_spec, chebyshev, chebyshev_spec, closest_tile_spec, closest_tile_to,
    collides_spec, collision_math, in_arena, on_grid, sign, sign_spec, small, key, key_spec,
};
use crate::region::{
    Region, npc_los_table_idx_spec, npc_table_entry, player_los_table_idx_spec, player_table_entry,
    raycast_blocked, ray_clear, step_allowed, tile_blocked, tile_blocked_spec, tile_los_spec, los_pair_spec,
    legal_step, path_entry_spec, reach_le, reachable,
};

verus! {

/// Casts a ray between two tiles of the grid.
pub fn raycast(region: &Region, x1: i32, y1: i32, x2: i32, y2: i32) -> (r: bool)
    requires
        on_grid(x1 as int, y1 as int),
        on_grid(x2 as int, y2 as int),
    ensures
        r == ray_clear(region.blocked@, x1 as int, y1 as int, x2 as int, y2 as int),
{
    raycast_blocked(&region.blocked, x1, y1, x2, y2)
}

/// Whether a tile at offset `(dx, dy)` from the top-left tile of a square of side `size`
/// touches one of its edges orthogonally (melee reach).
pub open spec fn melee_adjacent(dx: int, dy: int, size: int) -> bool {
    (dx < size && dx >= 0 && (dy == 1 || dy == -size)) || (dy > -size && dy <= 0 && (dx == -1 || dx == size))
}

/// Line of sight from a square of side `size` at `source` to `target` within `range`:
/// both tiles open, the target not under the source, melee reach for range 1, for a
/// monster the sight from the target back to the source's nearest tile, and else the
/// tile sight within range.
pub open spec fn line_of_sight_spec(bl: Seq<u8>, sx: int, sy: int, tx: int, ty: int, size: int, range: int, is_npc: bool) -> bool
    decreases (if is_npc { 1int } else { 0int }),
{
    if tile_blocked_spec(bl, sx, sy) || tile_blocked_spec(bl, tx, ty) {
        false
    } else if collides_spec(sx, sy, size, tx, ty, 1) {
        false
    } else if range == 1 {
        melee_adjacent(tx - sx, ty - sy, size)
    } else if is_npc {
        let c = closest_tile_spec(sx, sy, size, tx, ty);
        line_of_sight_spec(bl, tx, ty, c.0, c.1, 1, range, false)
    } else if abs_spec(tx - sx) > range || abs_spec(ty - sy) > range {
        false
    } else {
        tile_los_spec(bl, sx, sy, tx, ty)
    }
}

/// Line of sight from a square of side `size` at `source` to the tile `target`.
pub fn has_line_of_sight(region: &Region, source: Point, target: Point, size: i32, range: i32, is_npc: bool) -> (r: bool)
    requires
        region.wf(),
        geom_bound(source.x as int), geom_bound(source.y as int),
        geom_bound(target.x as int), geom_bound(target.y as int),
        1 <= size, geom_bound(size as int),
    ensures
        r == line_of_sight_spec(region.blocked@, source.x as int, source.y as int, target.x as int, target.y as int, size as int, range as int, is_npc),
    decreases (if is_npc { 1int } else { 0int }),
{
    if tile_blocked(&region.blocked, source.x, source.y) || tile_blocked(&region.blocked, target.x, target.y) {
        return false;
    }
    if collision_math(source.x, source.y, size, target.x, target.y, 1) {
        return false;
    }
    if range == 1 {
        let dx: i32 = target.x - source.x;
        let dy: i32 = target.y - source.y;
        return (dx < size && dx >= 0 && (dy == 1 || dy == -size)) || (dy > -size && dy <= 0 && (dx == -1 || dx == size));
    }
    if is_npc {
        let hx: i32 = source.x + size - 1;
        let cx0: i32 = if target.x <= hx { target.x } else { hx };
        let cx: i32 = if source.x >= cx0 { source.x } else { cx0 };
        let ly: i32 = source.y - size + 1;
        let cy0: i32 = if target.y <= source.y { target.y } else { source.y };
        let cy: i32 = if ly >= cy0 { ly } else { cy0 };
        let closest = Point { x: cx, y: cy };
        return has_line_of_sight(region, target, closest, 1, range, false);
    }
    let adx: i32 = if target.x - source.x < 0 { source.x - target.x } else { target.x - source.x };
    let ady: i32 = if target.y - source.y < 0 { source.y - target.y } else { target.y - source.y };
    if adx > range || ady > range {
        return false;
    }
    region.tile_los(source.x, source.y, target.x, target.y)
}

/// Whether `(tx, ty)` is within melee reach of a monster.
pub fn is_within_melee_range(mob: &Mob, tx: i32, ty: i32) -> (r: bool)
    requires
        mob_geom_ok(*mob),
        small(tx as int), small(ty as int),
    ensures
        r == melee_adjacent(tx - mob.x, ty - mob.y, mob.size as int),
{
    let dx: i32 = tx - mob.x;
    let dy: i32 = ty - mob.y;
    let s: i32 = mob.size;
    (dx < s && dx >= 0 && (dy == 1 || dy == -s)) || (dy > -s && dy <= 0 && (dx == -1 || dx == s))
}

/// Whether a monster sees the player, as the simulation decides it: melee reach for
/// range 1; the monster sight table when it covers the monster and the player; else the
/// monster's nearest tile to the player, open and within range, seeing the player.
pub open spec fn mob_los_spec(bl: Seq<u8>, m: Mob, px: int, py: int) -> bool {
    if m.range == 1 {
        melee_adjacent(px - m.x, py - m.y, m.size as int)
    } else if in_arena(m.x as int, m.y as int) && in_arena(px, py) && npc_los_table_idx_spec(m.size as int, m.range as int) is Some {
        npc_table_entry(bl, m.size as int, m.range as int, arena_index_spec(m.x as int, m.y as int), arena_index_spec(px, py))
    } else {
        mob_los_direct(bl, m.x as int, m.y as int, m.size as int, m.range as int, px, py)
    }
}

/// The direct monster sight test.
pub open spec fn mob_los_direct(bl: Seq<u8>, mx: int, my: int, size: int, range: int, px: int, py: int) -> bool {
    let t = closest_tile_spec(mx, my, size, px, py);
    &&& !tile_blocked_spec(bl, mx, my)
    &&& !tile_blocked_spec(bl, px, py)
    &&& !collides_spec(mx, my, size, px, py, 1)
    &&& !tile_blocked_spec(bl, t.0, t.1)
    &&& abs_spec(t.0 - px) <= range && abs_spec(t.1 - py) <= range
    &&& tile_los_spec(bl, px, py, t.0, t.1)
}

/// Whether a monster sees the player.
pub fn mob_has_los(region: &Region, mob: &Mob, player: &Player) -> (r: bool)
    requires
        region.wf(),
        mob_geom_ok(*mob),
        player_pos_ok(*player),
    ensures
        r == mob_los_spec(region.blocked@, *mob, player.x as int, player.y as int),
{
    if mob.range == 1 {
        return is_within_melee_range(mob, player.x, player.y);
    }
    if let Some(has_los) = region.npc_has_los(mob.size, mob.range, mob.x, mob.y, player.x, player.y) {
        return has_los;
    }
    if tile_blocked(&region.blocked, mob.x, mob.y) || tile_blocked(&region.blocked, player.x, player.y) {
        return false;
    }
    if collision_math(mob.x, mob.y, mob.size, player.x, player.y, 1) {
        return false;
    }
    let t: Point = closest_tile_to(mob, player.x, player.y);
    if tile_blocked(&region.blocked, t.x, t.y) {
        return false;
    }
    let adx: i32 = if t.x - player.x < 0 { player.x - t.x } else { t.x - player.x };
    let ady: i32 = if t.y - player.y < 0 { player.y - t.y } else { t.y - player.y };
    if adx > mob.range || ady > mob.range {
        return false;
    }
    region.tile_los(player.x, player.y, t.x, t.y)
}

/// Whether the player on `(px, py)` sees a monster with attack range `range`, as the
/// simulation decides it: from the player sight table when it covers them, else the
/// monster's nearest tile open, distinct from the player's, within range, and in sight.
pub open spec fn player_los_spec(bl: Seq<u8>, px: int, py: int, m: Mob, range: int) -> bool {
    if in_arena(m.x as int, m.y as int) && in_arena(px, py) && player_los_table_idx_spec(m.size as int, range) is Some {
        player_table_entry(bl, m.size as int, range, arena_index_spec(m.x as int, m.y as int), arena_index_spec(px, py))
    } else {
        player_los_direct(bl, m.x as int, m.y as int, m.size as int, range, px, py)
    }
}

/// The direct player sight test.
pub open spec fn player_los_direct(bl: Seq<u8>, mx: int, my: int, size: int, range: int, px: int, py: int) -> bool {
    let c = closest_tile_spec(mx, my, size, px, py);
    &&& !tile_blocked_spec(bl, px, py)
    &&& !tile_blocked_spec(bl, c.0, c.1)
    &&& !(px == c.0 && py == c.1)
    &&& abs_spec(c.0 - px) <= range && abs_spec(c.1 - py) <= range
    &&& tile_los_spec(bl, px, py, c.0, c.1)
}

/// Whether the player on `(px, py)` sees a monster with attack range `range`.
pub fn player_has_los(region: &Region, px: i32, py: i32, mob: &Mob, range: i32) -> (r: bool)
    requires
        region.wf(),
        mob_geom_ok(*mob),
        on_grid(px as int, py as int),
    ensures
        r == player_los_spec(region.blocked@, px as int, py as int, *mob, range as int),
{
    if let Some(has_los) = region.player_has_los(mob.size, range, mob.x, mob.y, px, py) {
        return has_los;
    }
    let cp: Point = closest_tile_to(mob, px, py);
    if tile_blocked(&region.blocked, px, py) || tile_blocked(&region.blocked, cp.x, cp.y) {
        return false;
    }
    if px == cp.x && py == cp.y {
        return false;
    }
    let adx: i32 = if cp.x - px < 0 { px - cp.x } else { cp.x - px };
    let ady: i32 = if cp.y - py < 0 { py - cp.y } else { cp.y - py };
    if adx > range || ady > range {
        return false;
    }
    region.tile_los(px, py, cp.x, cp.y)
}

/// The monster sight table agrees with the direct test whenever the monster, the player
/// and the monster's tile nearest to the player are arena tiles.
pub proof fn lemma_npc_table_matches_direct(bl: Seq<u8>, mx: int, my: int, size: int, range: int, px: int, py: int)
    requires
        in_arena(mx, my), in_arena(px, py),
        in_arena(closest_tile_spec(mx, my, size, px, py).0, closest_tile_spec(mx, my, size, px, py).1),
    ensures
        npc_table_entry(bl, size, range, arena_index_spec(mx, my), arena_index_spec(px, py))
            == mob_los_direct(bl, mx, my, size, range, px, py),
{
    crate::mechanics::lemma_arena_index_roundtrip(mx, my);
    crate::mechanics::lemma_arena_index_roundtrip(px, py);
    let t = closest_tile_spec(mx, my, size, px, py);
    crate::mechanics::lemma_arena_index_roundtrip(t.0, t.1);
}

/// The player sight table agrees with the direct test whenever the monster, the player
/// and the monster's tile nearest to the player are arena tiles.
pub proof fn lemma_player_table_matches_direct(bl: Seq<u8>, mx: int, my: int, size: int, range: int, px: int, py: int)
    requires
        in_arena(mx, my), in_arena(px, py),
        in_arena(closest_tile_spec(mx, my, size, px, py).0, closest_tile_spec(mx, my, size, px, py).1),
    ensures
        player_table_entry(bl, size, range, arena_index_spec(mx, my), arena_index_spec(px, py))
            == player_los_direct(bl, mx, my, size, range, px, py),
{
    crate::mechanics::lemma_arena_index_roundtrip(mx, my);
    crate::mechanics::lemma_arena_index_roundtrip(px, py);
    let t = closest_tile_spec(mx, my, size, px, py);
    crate::mechanics::lemma_arena_index_roundtrip(t.0, t.1);
}

/// Whether the player stands diagonally or orthogonally next to a monster's footprint.
pub fn is_within_secondary_melee_range(mob: &Mob, player: &Player) -> (r: bool)
    requires
        mob_geom_ok(*mob),
        player_pos_ok(*player),
    ensures
        r == (crate::mechanics::dist_to_mob_spec(player.x as int, player.y as int, *mob) == 1),
{
    let ct: Point = closest_tile_to(mob, player.x, player.y);
    chebyshev(player.x, player.y, ct.x, ct.y) == 1
}

/// Whether a monster may swap to its melee attack: magers, rangers and blobs next to the player.
pub fn can_use_secondary_melee(mob: &Mob, player: &Player) -> (r: bool)
    requires
        mob_geom_ok(*mob),
        player_pos_ok(*player),
    ensures
        r == ((mob.mob_type == MobType::Mager || mob.mob_type == MobType::Ranger || mob.mob_type == MobType::Blob)
            && crate::mechanics::dist_to_mob_spec(player.x as int, player.y as int, *mob) == 1),
{
    (mob.mob_type == MobType::Mager || mob.mob_type == MobType::Ranger || mob.mob_type == MobType::Blob)
        && is_within_secondary_melee_range(mob, player)
}


// ---------------------------------------------------------------- approaching a monster

/// A face tile candidate: its coordinates and whether it lies on a north or south face.
pub type FaceCandidate = (int, int, bool);

/// The face tiles of a monster in the order they are examined: the row above, the row
/// below, then (inside the arena) the column to the left and the column to the right.
pub open spec fn face_candidates(mx: int, my: int, s: int) -> Seq<FaceCandidate> {
    Seq::new(s as nat, |i: int| (mx + i, my + 1, true))
        + Seq::new(s as nat, |i: int| (mx + i, my - s, true))
        + (if mx > ARENA_X_MIN { Seq::new(s as nat, |i: int| (mx - 1, my - s + 1 + i, false)) } else { Seq::empty() })
        + (if mx + s <= ARENA_X_MAX { Seq::new(s as nat, |i: int| (mx + s, my - s + 1 + i, false)) } else { Seq::empty() })
}

/// Best face tile so far: its Chebyshev distance, its Manhattan distance, and the tile.
pub type FaceBest = (int, int, Option<FaceCandidate>);

/// One step of the face-tile choice: an open candidate replaces the best when it is
/// closer; or as close and on a north or south face while the best is not; or as close,
/// on the same kind of face, and closer in Manhattan distance.
pub open spec fn face_step(bl: Seq<u8>, px: int, py: int, st: FaceBest, c: FaceCandidate) -> FaceBest {
    if tile_blocked_spec(bl, c.0, c.1) {
        st
    } else {
        let d = chebyshev_spec(px, py, c.0, c.1);
        let m = abs_spec(px - c.0) + abs_spec(py - c.1);
        let best_is_ns = match st.2 { Some(b) => b.2, None => false };
        let same_kind = match st.2 { Some(b) => b.2, None => c.2 };
        if d < st.0 || (d == st.0 && c.2 && st.2 is Some && !best_is_ns) || (d == st.0 && c.2 == same_kind && m < st.1) {
            (d, m, Some(c))
        } else {
            st
        }
    }
}

/// The face-tile choice as the code makes it, candidate by candidate.
spec fn face_fold(bl: Seq<u8>, m: Mob, px: int, py: int) -> FaceBest {
    let init: FaceBest = (i32::MAX as int, i32::MAX as int, None);
    face_candidates(m.x as int, m.y as int, m.size as int).fold_left(init, |st: FaceBest, c: FaceCandidate| face_step(bl, px, py, st, c))
}

/// Whether face tile `c` is a better choice than `b` for the player on `(px, py)`: it is
/// closer; or as close and on a north or south face while `b` is not; or as close, on
/// the same kind of face, and closer in Manhattan distance.
pub open spec fn face_before(px: int, py: int, c: FaceCandidate, b: FaceCandidate) -> bool {
    let dc = chebyshev_spec(px, py, c.0, c.1);
    let db = chebyshev_spec(px, py, b.0, b.1);
    let mc = abs_spec(px - c.0) + abs_spec(py - c.1);
    let mb = abs_spec(px - b.0) + abs_spec(py - b.1);
    dc < db || (dc == db && c.2 && !b.2) || (dc == db && c.2 == b.2 && mc < mb)
}

/// Whether candidate `i` is the choice: an open tile that no open candidate beats, and
/// that beats every open candidate before it (the first of the best).
pub open spec fn is_face_choice(bl: Seq<u8>, cands: Seq<FaceCandidate>, px: int, py: int, i: int) -> bool {
    &&& 0 <= i < cands.len()
    &&& !tile_blocked_spec(bl, cands[i].0, cands[i].1)
    &&& forall|j: int| 0 <= j < cands.len() && !tile_blocked_spec(bl, cands[j].0, cands[j].1) ==>
        !face_before(px, py, #[trigger] cands[j], cands[i])
    &&& forall|j: int| 0 <= j < i && !tile_blocked_spec(bl, cands[j].0, cands[j].1) ==>
        face_before(px, py, cands[i], #[trigger] cands[j])
}

/// The face tile chosen for the player on `(px, py)` approaching the monster: the first
/// of the best open face tiles, or none when every face tile is blocked.
pub open spec fn closest_face_spec(bl: Seq<u8>, m: Mob, px: int, py: int) -> Option<(int, int)> {
    let cands = face_candidates(m.x as int, m.y as int, m.size as int);
    if exists|i: int| #[trigger] is_face_choice(bl, cands, px, py, i) {
        let i = choose|i: int| #[trigger] is_face_choice(bl, cands, px, py, i);
        Some((cands[i].0, cands[i].1))
    } else {
        None
    }
}

/// The candidate-by-candidate choice keeps the first of the best open candidates seen.
proof fn lemma_face_fold_take(bl: Seq<u8>, cands: Seq<FaceCandidate>, px: int, py: int, n: int)
    requires
        0 <= n <= cands.len(),
        forall|k: int| 0 <= k < cands.len() ==> -0x20000000 <= (#[trigger] cands[k]).0 <= 0x20000000 && -0x20000000 <= cands[k].1 <= 0x20000000,
        -1000 <= px <= 1000, -1000 <= py <= 1000,
    ensures
        ({
            let init: FaceBest = (i32::MAX as int, i32::MAX as int, None);
            let st = cands.take(n).fold_left(init, |st: FaceBest, c: FaceCandidate| face_step(bl, px, py, st, c));
            let t = cands.take(n);
            &&& st.2 is None <==> forall|j: int| 0 <= j < n ==> tile_blocked_spec(bl, #[trigger] cands[j].0, cands[j].1)
            &&& st.2 is None ==> st.0 == i32::MAX && st.1 == i32::MAX
            &&& st.2 matches Some(b) ==> exists|i: int| #[trigger] is_face_choice(bl, t, px, py, i) && t[i] == b
                && st.0 == chebyshev_spec(px, py, b.0, b.1) && st.1 == abs_spec(px - b.0) + abs_spec(py - b.1)
        }),
    decreases n,
{
    let init: FaceBest = (i32::MAX as int, i32::MAX as int, None);
    let f = |st: FaceBest, c: FaceCandidate| face_step(bl, px, py, st, c);
    if n == 0 {
        assert(cands.take(0) =~= Seq::<FaceCandidate>::empty());
    } else {
        lemma_face_fold_take(bl, cands, px, py, n - 1);
        lemma_fold_take(cands, init, f, n - 1);
        let t0 = cands.take(n - 1);
        let t = cands.take(n);
        let st0 = t0.fold_left(init, f);
        let c = cands[n - 1];
        assert(t[n - 1] == c);
        assert forall|j: int| 0 <= j < n - 1 implies #[trigger] t[j] == t0[j] by {}
        if !tile_blocked_spec(bl, c.0, c.1) {
            assert(chebyshev_spec(px, py, c.0, c.1) <= 0x40000000);
            match st0.2 {
                None => {
                    assert(t.fold_left(init, f) == (chebyshev_spec(px, py, c.0, c.1), abs_spec(px - c.0) + abs_spec(py - c.1), Some(c)));
                    assert(is_face_choice(bl, t, px, py, n - 1)) by {
                        assert forall|j: int| 0 <= j < t.len() && !tile_blocked_spec(bl, t[j].0, t[j].1) implies
                            !face_before(px, py, #[trigger] t[j], t[n - 1]) by {
                            if j < n - 1 {
                                assert(tile_blocked_spec(bl, cands[j].0, cands[j].1));
                            }
                        }
                    }
                },
                Some(b) => {
                    let i = choose|i: int| #[trigger] is_face_choice(bl, t0, px, py, i) && t0[i] == b
                        && st0.0 == chebyshev_spec(px, py, b.0, b.1) && st0.1 == abs_spec(px - b.0) + abs_spec(py - b.1);
                    if face_before(px, py, c, b) {
                        assert(is_face_choice(bl, t, px, py, n - 1)) by {
                            assert forall|j: int| 0 <= j < t.len() && !tile_blocked_spec(bl, t[j].0, t[j].1) implies
                                !face_before(px, py, #[trigger] t[j], t[n - 1]) by {
                                if j < n - 1 {
                                    assert(t[j] == t0[j]);
                                    assert(!face_before(px, py, t0[j], t0[i]));
                                }
                            }
                            assert forall|j: int| 0 <= j < n - 1 && !tile_blocked_spec(bl, t[j].0, t[j].1) implies
                                face_before(px, py, t[n - 1], #[trigger] t[j]) by {
                                assert(t[j] == t0[j]);
                                assert(!face_before(px, py, t0[j], t0[i]));
                            }
                        }
                    } else {
                        assert(is_face_choice(bl, t, px, py, i)) by {
                            assert forall|j: int| 0 <= j < t.len() && !tile_blocked_spec(bl, t[j].0, t[j].1) implies
                                !face_before(px, py, #[trigger] t[j], t[i]) by {
                                if j < n - 1 {
                                    assert(t[j] == t0[j]);
                                }
                            }
                            assert forall|j: int| 0 <= j < i && !tile_blocked_spec(bl, t[j].0, t[j].1) implies
                                face_before(px, py, t[i], #[trigger] t[j]) by {
                                assert(t[j] == t0[j]);
                            }
                        }
                    }
                },
            }
        } else {
            match st0.2 {
                None => {},
                Some(b) => {
                    let i = choose|i: int| #[trigger] is_face_choice(bl, t0, px, py, i) && t0[i] == b
                        && st0.0 == chebyshev_spec(px, py, b.0, b.1) && st0.1 == abs_spec(px - b.0) + abs_spec(py - b.1);
                    assert(is_face_choice(bl, t, px, py, i)) by {
                        assert forall|j: int| 0 <= j < t.len() && !tile_blocked_spec(bl, t[j].0, t[j].1) implies
                            !face_before(px, py, #[trigger] t[j], t[i]) by {
                            if j < n - 1 {
                                assert(t[j] == t0[j]);
                            }
                        }
                        assert forall|j: int| 0 <= j < i && !tile_blocked_spec(bl, t[j].0, t[j].1) implies
                            face_before(px, py, t[i], #[trigger] t[j]) by {
                            assert(t[j] == t0[j]);
                        }
                    }
                },
            }
        }
    }
}

/// There is at most one choice.
proof fn lemma_face_choice_unique(bl: Seq<u8>, cands: Seq<FaceCandidate>, px: int, py: int, i: int, k: int)
    requires
        is_face_choice(bl, cands, px, py, i),
        is_face_choice(bl, cands, px, py, k),
    ensures
        i == k,
{
    if i < k {
        assert(face_before(px, py, cands[k], cands[i]));
    } else if k < i {
        assert(face_before(px, py, cands[i], cands[k]));
    }
}

/// The code's candidate-by-candidate choice is the first of the best open face tiles.
proof fn lemma_face_fold(bl: Seq<u8>, m: Mob, px: int, py: int)
    requires
        mob_geom_ok(m),
        on_grid(px, py),
    ensures
        match face_fold(bl, m, px, py).2 {
            Some(b) => closest_face_spec(bl, m, px, py) == Some((b.0, b.1)),
            None => closest_face_spec(bl, m, px, py) is None,
        },
{
    let cands = face_candidates(m.x as int, m.y as int, m.size as int);
    assert forall|k: int| 0 <= k < cands.len() implies -0x20000000 <= (#[trigger] cands[k]).0 <= 0x20000000 && -0x20000000 <= cands[k].1 <= 0x20000000 by {
        let s = m.size as int;
        let a = Seq::new(s as nat, |i: int| (m.x + i, m.y + 1, true));
        let b = Seq::new(s as nat, |i: int| (m.x + i, m.y - s, true));
        let c: Seq<FaceCandidate> = if m.x > ARENA_X_MIN { Seq::new(s as nat, |i: int| (m.x - 1, m.y - s + 1 + i, false)) } else { Seq::empty() };
        let d: Seq<FaceCandidate> = if m.x + s <= ARENA_X_MAX { Seq::new(s as nat, |i: int| (m.x + s, m.y - s + 1 + i, false)) } else { Seq::empty() };
        assert(cands == a + b + c + d);
        if k < s {
            assert(cands[k] == a[k]);
        } else if k < 2 * s {
            assert(cands[k] == b[k - s]);
        } else if k < 2 * s + c.len() {
            assert(cands[k] == c[k - 2 * s]);
        } else {
            assert(cands[k] == d[k - 2 * s - c.len()]);
        }
    }
    lemma_face_fold_take(bl, cands, px, py, cands.len() as int);
    assert(cands.take(cands.len() as int) =~= cands);
    let st = face_fold(bl, m, px, py);
    match st.2 {
        Some(b) => {
            let i = choose|i: int| #[trigger] is_face_choice(bl, cands, px, py, i) && cands[i] == b;
            let k = choose|k: int| #[trigger] is_face_choice(bl, cands, px, py, k);
            lemma_face_choice_unique(bl, cands, px, py, i, k);
        },
        None => {
            if exists|i: int| #[trigger] is_face_choice(bl, cands, px, py, i) {
                let i = choose|i: int| #[trigger] is_face_choice(bl, cands, px, py, i);
                assert(tile_blocked_spec(bl, cands[i].0, cands[i].1));
            }
        },
    }
}

/// The running face-tile choice.
struct FaceState {
    best_dist: i32,
    best_man: i32,
    best: Option<(Point, bool)>,
}

spec fn face_best_open(bl: Seq<u8>, s: FaceState) -> bool {
    s.best matches Some((p, _)) ==> !tile_blocked_spec(bl, p.x as int, p.y as int)
}

spec fn face_state_view(s: FaceState) -> FaceBest {
    (s.best_dist as int, s.best_man as int, match s.best { Some((p, ns)) => Some((p.x as int, p.y as int, ns)), None => None })
}

proof fn lemma_fold_take<A, B>(s: Seq<A>, b: B, f: spec_fn(B, A) -> B, n: int)
    requires
        0 <= n < s.len(),
    ensures
        s.take(n + 1).fold_left(b, f) == f(s.take(n).fold_left(b, f), s[n]),
{
    assert(s.take(n + 1).drop_last() =~= s.take(n));
}

fn face_check(bl: &[u8; 4096], px: i32, py: i32, st: &mut FaceState, x: i32, y: i32, is_ns: bool)
    requires
        on_grid(px as int, py as int),
        coord_ok(x as int) || small(x as int),
        small(x as int), small(y as int),
        old(st).best_dist >= 0, old(st).best_man >= 0,
        face_best_open(bl@, *old(st)),
    ensures
        face_best_open(bl@, *final(st)),
        face_state_view(*final(st)) == face_step(bl@, px as int, py as int, face_state_view(*old(st)), (x as int, y as int, is_ns)),
        final(st).best_dist >= 0, final(st).best_man >= 0,
{
    if tile_blocked(bl, x, y) {
        return;
    }
    let d: i32 = chebyshev(px, py, x, y);
    let ax: i32 = if px - x < 0 { x - px } else { px - x };
    let ay: i32 = if py - y < 0 { y - py } else { py - y };
    let m: i32 = ax + ay;
    let best_is_ns: bool = match st.best { Some((_, v)) => v, None => false };
    let same_kind: bool = match st.best { Some((_, v)) => v, None => is_ns };
    if d < st.best_dist
        || (d == st.best_dist && is_ns && st.best.is_some() && !best_is_ns)
        || (d == st.best_dist && is_ns == same_kind && m < st.best_man)
    {
        st.best_dist = d;
        st.best_man = m;
        st.best = Some((Point { x, y }, is_ns));
    }
}

/// The face tile of a monster that the player on `(px, py)` walks to before attacking.
pub fn get_closest_face_tile(mob: &Mob, px: i32, py: i32, region: &Region) -> (r: Option<Point>)
    requires
        mob_geom_ok(*mob),
        on_grid(px as int, py as int),
    ensures
        match closest_face_spec(region.blocked@, *mob, px as int, py as int) {
            Some((x, y)) => r matches Some(p) && p.x == x && p.y == y,
            None => r is None,
        },
        r matches Some(p) ==> !tile_blocked_spec(region.blocked@, p.x as int, p.y as int),
{
    let s: i32 = mob.size;
    let mx: i32 = mob.x;
    let my: i32 = mob.y;
    let ghost bl = region.blocked@;
    let ghost cands = face_candidates(mx as int, my as int, s as int);
    let ghost f = |st: FaceBest, c: FaceCandidate| face_step(bl, px as int, py as int, st, c);
    let ghost init: FaceBest = (i32::MAX as int, i32::MAX as int, None);
    let mut st = FaceState { best_dist: i32::MAX, best_man: i32::MAX, best: None };
    let ghost mut n: int = 0;
    assert(cands.take(0) =~= Seq::<FaceCandidate>::empty());
    let mut x: i32 = mx;
    while x < mx + s
        invariant
            mob_geom_ok(*mob), s == mob.size, mx == mob.x, my == mob.y,
            on_grid(px as int, py as int),
            bl == region.blocked@,
            cands == face_candidates(mx as int, my as int, s as int),
            f == (|st: FaceBest, c: FaceCandidate| face_step(bl, px as int, py as int, st, c)),
            mx <= x <= mx + s,
            n == x - mx,
            st.best_dist >= 0, st.best_man >= 0,
            face_best_open(bl, st),
            face_state_view(st) == cands.take(n).fold_left(init, f),
        decreases mx + s - x,
    {
        proof { lemma_fold_take(cands, init, f, n); }
        face_check(&region.blocked, px, py, &mut st, x, my + 1, true);
        proof { n = n + 1; }
        x = x + 1;
    }
    let mut x: i32 = mx;
    while x < mx + s
        invariant
            mob_geom_ok(*mob), s == mob.size, mx == mob.x, my == mob.y,
            on_grid(px as int, py as int),
            bl == region.blocked@,
            cands == face_candidates(mx as int, my as int, s as int),
            f == (|st: FaceBest, c: FaceCandidate| face_step(bl, px as int, py as int, st, c)),
            mx <= x <= mx + s,
            n == s + x - mx,
            st.best_dist >= 0, st.best_man >= 0,
            face_best_open(bl, st),
            face_state_view(st) == cands.take(n).fold_left(init, f),
        decreases mx + s - x,
    {
        proof { lemma_fold_take(cands, init, f, n); }
        face_check(&region.blocked, px, py, &mut st, x, my - s, true);
        proof { n = n + 1; }
        x = x + 1;
    }
    if mx > ARENA_X_MIN {
        let mut y: i32 = my - s + 1;
        while y <= my
            invariant
                mob_geom_ok(*mob), s == mob.size, mx == mob.x, my == mob.y, mx > ARENA_X_MIN,
                on_grid(px as int, py as int),
                bl == region.blocked@,
                cands == face_candidates(mx as int, my as int, s as int),
                f == (|st: FaceBest, c: FaceCandidate| face_step(bl, px as int, py as int, st, c)),
                my - s + 1 <= y <= my + 1,
                n == 2 * s + y - (my - s + 1),
                st.best_dist >= 0, st.best_man >= 0,
                face_best_open(bl, st),
            face_best_open(bl, st),
                face_state_view(st) == cands.take(n).fold_left(init, f),
            decreases my + 1 - y,
        {
            proof { lemma_fold_take(cands, init, f, n); }
            face_check(&region.blocked, px, py, &mut st, mx - 1, y, false);
            proof { n = n + 1; }
            y = y + 1;
        }
    }
    let ghost third: int = if mx > ARENA_X_MIN { s as int } else { 0 };
    assert(n == 2 * s + third);
    if mx + s <= ARENA_X_MAX {
        let mut y: i32 = my - s + 1;
        while y <= my
            invariant
                mob_geom_ok(*mob), s == mob.size, mx == mob.x, my == mob.y, mx + s <= ARENA_X_MAX,
                on_grid(px as int, py as int),
                bl == region.blocked@,
                cands == face_candidates(mx as int, my as int, s as int),
                third == (if mx > ARENA_X_MIN { s as int } else { 0 }),
                f == (|st: FaceBest, c: FaceCandidate| face_step(bl, px as int, py as int, st, c)),
                my - s + 1 <= y <= my + 1,
                n == 2 * s + third + y - (my - s + 1),
                st.best_dist >= 0, st.best_man >= 0,
                face_best_open(bl, st),
            face_best_open(bl, st),
                face_state_view(st) == cands.take(n).fold_left(init, f),
            decreases my + 1 - y,
        {
            proof { lemma_fold_take(cands, init, f, n); }
            face_check(&region.blocked, px, py, &mut st, mx + s, y, false);
            proof { n = n + 1; }
            y = y + 1;
        }
    }
    assert(cands.take(n) =~= cands);
    proof {
        lemma_face_fold(bl, *mob, px as int, py as int);
    }
    match st.best {
        Some((p, _)) => Some(p),
        None => None,
    }
}


// ---------------------------------------------------------------- walking

/// A node of the player's breadth-first search, with the index of the node it was reached from.
#[derive(Clone, Copy, Debug)]
pub struct BfsNode {
    pub x: i32,
    pub y: i32,
    pub parent: Option<usize>,
}

/// Whether stepping from `(sx, sy)` onto `(x, y)` cuts no corner: a diagonal step
/// needs both tiles beside it open.
pub open spec fn corner_free(bl: Seq<u8>, sx: int, sy: int, x: int, y: int) -> bool {
    (x != sx && y != sy) ==> !tile_blocked_spec(bl, x, sy) && !tile_blocked_spec(bl, sx, y)
}

/// A walking step from `(sx, sy)`: an open tile at Chebyshev distance 1, reached
/// without cutting a corner.
pub open spec fn is_walk_step(bl: Seq<u8>, sx: int, sy: int, p: Point) -> bool {
    &&& !tile_blocked_spec(bl, p.x as int, p.y as int)
    &&& chebyshev_spec(sx, sy, p.x as int, p.y as int) == 1
    &&& corner_free(bl, sx, sy, p.x as int, p.y as int)
}

/// The search queue: the root is the start; every other node is an open arena tile
/// other than the start, one allowed step from an earlier node.
spec fn bfs_queue_ok(bl: Seq<u8>, q: Seq<BfsNode>, sx: int, sy: int) -> bool {
    &&& q.len() >= 1
    &&& q[0].x == sx && q[0].y == sy && q[0].parent is None
    &&& forall|i: int| 1 <= i < q.len() ==> {
        let n = #[trigger] q[i];
        &&& n.parent matches Some(p) && p < i
        &&& in_arena(n.x as int, n.y as int)
        &&& !tile_blocked_spec(bl, n.x as int, n.y as int)
        &&& !(n.x == sx && n.y == sy)
        &&& chebyshev_spec(q[n.parent->0 as int].x as int, q[n.parent->0 as int].y as int, n.x as int, n.y as int) == 1
        &&& corner_free(bl, q[n.parent->0 as int].x as int, q[n.parent->0 as int].y as int, n.x as int, n.y as int)
    }
}

proof fn lemma_legal_step_is_walk(bl: Seq<u8>, sx: int, sy: int, p: Point)
    requires
        in_arena(sx, sy),
        in_arena(p.x as int, p.y as int),
        legal_step(bl, arena_index_spec(sx, sy), arena_index_spec(p.x as int, p.y as int)),
    ensures
        is_walk_step(bl, sx, sy, p),
{
    crate::mechanics::lemma_arena_index_roundtrip(sx, sy);
    crate::mechanics::lemma_arena_index_roundtrip(p.x as int, p.y as int);
    let d = choose|d: int| #[trigger] crate::region::legal_step_dir(bl, arena_index_spec(sx, sy), arena_index_spec(p.x as int, p.y as int), d);
    assert(crate::region::legal_step_dir(bl, arena_index_spec(sx, sy), arena_index_spec(p.x as int, p.y as int), d));
    assert(0 <= d < 8);
    assert(corner_free(bl, sx, sy, p.x as int, p.y as int));
}

/// Whether `r` is a step towards a reachable target: when `(sx, sy)` is an open arena
/// tile from which the arena tile `(tx, ty)` can be reached, the result is an allowed
/// step (no corner cut), the first of a shortest walk to the target.
pub open spec fn reach_step(region: Region, sx: int, sy: int, tx: int, ty: int, r: Option<Point>) -> bool {
    let bl = region.blocked@;
    in_arena(sx, sy) && in_arena(tx, ty) && !(sx == tx && sy == ty) && !tile_blocked_spec(bl, sx, sy)
        && reachable(bl, arena_index_spec(sx, sy), arena_index_spec(tx, ty)) ==> (r matches Some(p)
        && legal_step(bl, arena_index_spec(sx, sy), arena_index_spec(p.x as int, p.y as int))
        && reachable(bl, arena_index_spec(p.x as int, p.y as int), arena_index_spec(tx, ty))
        && forall|n: int| #[trigger] reach_le(bl, arena_index_spec(sx, sy), arena_index_spec(tx, ty), n)
            ==> reach_le(bl, arena_index_spec(p.x as int, p.y as int), arena_index_spec(tx, ty), n - 1))
}

/// What a searched step from `(sx, sy)` towards `(tx, ty)` gives: nothing on the target
/// itself; otherwise a walking step (no corner cut) or nothing; the stored first step
/// of a path between two arena tiles when there is one; and the first step of a
/// shortest walk whenever the target can be reached.
pub open spec fn bfs_step_ok(region: Region, sx: int, sy: int, tx: int, ty: int, r: Option<Point>) -> bool {
    let here = sx == tx && sy == ty;
    &&& here ==> r is None
    &&& r matches Some(p) ==> is_walk_step(region.blocked@, sx, sy, p)
    &&& !here && in_arena(sx, sy) && in_arena(tx, ty) && path_entry_spec(region, sx, sy, tx, ty) != 0 ==>
        (r matches Some(p) && (p.x as int, p.y as int) == arena_point_spec(path_entry_spec(region, sx, sy, tx, ty) - 1))
    &&& reach_step(region, sx, sy, tx, ty, r)
}

/// The next tile of the player's walk from `(sx, sy)` towards `(tx, ty)`: the stored
/// first step between two arena tiles, else a breadth-first search of at most 2000
/// nodes, else a greedy step towards the target.
pub fn player_bfs(sx: i32, sy: i32, tx: i32, ty: i32, region: &Region) -> (r: Option<Point>)
    requires
        region.wf(),
        on_grid(sx as int, sy as int),
        small(tx as int), small(ty as int),
    ensures
        (sx == tx && sy == ty) ==> r is None,
        r matches Some(p) ==> is_walk_step(region.blocked@, sx as int, sy as int, p),
        !(sx == tx && sy == ty) && in_arena(sx as int, sy as int) && in_arena(tx as int, ty as int)
            && path_entry_spec(*region, sx as int, sy as int, tx as int, ty as int) != 0 ==>
            (r matches Some(p) && (p.x as int, p.y as int)
                == arena_point_spec(path_entry_spec(*region, sx as int, sy as int, tx as int, ty as int) - 1)),
        reach_step(*region, sx as int, sy as int, tx as int, ty as int, r),
        bfs_step_ok(*region, sx as int, sy as int, tx as int, ty as int, r),
{
    if sx == tx && sy == ty {
        return None;
    }
    if let Some(step) = region.path_next_step(sx, sy, tx, ty) {
        proof { lemma_legal_step_is_walk(region.blocked@, sx as int, sy as int, step); }
        return Some(step);
    }
    let ghost bl = region.blocked@;
    let ghost no_entry = !(in_arena(sx as int, sy as int) && in_arena(tx as int, ty as int)
        && path_entry_spec(*region, sx as int, sy as int, tx as int, ty as int) != 0);
    let mut visited: [u8; 4096] = [0u8; 4096];
    let start_key: usize = key(sx, sy);
    visited[start_key] = 1;
    let mut queue: Vec<BfsNode> = Vec::new();
    queue.push(BfsNode { x: sx, y: sy, parent: None });
    let mut qi: usize = 0;
    while qi < queue.len() && queue.len() < 2000
        invariant
            region.wf(),
            bl == region.blocked@,
            no_entry,
            reach_step(*region, sx as int, sy as int, tx as int, ty as int, None),
            no_entry == !(in_arena(sx as int, sy as int) && in_arena(tx as int, ty as int)
                && path_entry_spec(*region, sx as int, sy as int, tx as int, ty as int) != 0),
            on_grid(sx as int, sy as int),
            !(sx == tx && sy == ty),
            queue@.len() <= 2007,
            bfs_queue_ok(bl, queue@, sx as int, sy as int),
            visited@[key_spec(sx as int, sy as int)] != 0u8,
            0 <= key_spec(sx as int, sy as int) < 4096,
            forall|k: int| 0 <= k < queue@.len() ==> on_grid((#[trigger] queue@[k]).x as int, queue@[k].y as int),
        decreases 2007 - qi,
    {
        let node: BfsNode = queue[qi];
        if node.x == tx && node.y == ty {
            let mut step_idx: usize = qi;
            assert(qi > 0);
            // Walk back up the parents until the node reached straight from the start.
            loop
                invariant
                    bfs_queue_ok(bl, queue@, sx as int, sy as int),
                    1 <= step_idx < queue@.len(),
                ensures
                    1 <= step_idx < queue@.len(),
                    queue@[queue@[step_idx as int].parent->0 as int].x == sx,
                    queue@[queue@[step_idx as int].parent->0 as int].y == sy,
                decreases step_idx,
            {
                let parent_idx: usize = queue[step_idx].parent.unwrap();
                let parent: BfsNode = queue[parent_idx];
                if parent.x == sx && parent.y == sy {
                    break;
                }
                assert(parent_idx != 0);
                step_idx = parent_idx;
            }
            let step: BfsNode = queue[step_idx];
            let r = Point { x: step.x, y: step.y };
            return Some(r);
        }
        let mut d: usize = 0;
        while d < 8
            invariant
                region.wf(),
                bl == region.blocked@,
                on_grid(sx as int, sy as int),
                qi < queue@.len(),
                node == queue@[qi as int],
                queue@.len() <= 1999 + d,
                d <= 8,
                bfs_queue_ok(bl, queue@, sx as int, sy as int),
                visited@[key_spec(sx as int, sy as int)] != 0u8,
                0 <= key_spec(sx as int, sy as int) < 4096,
                forall|k: int| 0 <= k < queue@.len() ==> on_grid((#[trigger] queue@[k]).x as int, queue@[k].y as int),
            decreases 8 - d,
        {
            let (dx, dy) = bfs_dir(d);
            let nx: i32 = node.x + dx;
            let ny: i32 = node.y + dy;
            if ARENA_X_MIN <= nx && nx <= ARENA_X_MAX && ARENA_Y_MIN <= ny && ny <= ARENA_Y_MAX {
                let k: usize = key(nx, ny);
                if visited[k] == 0 && !tile_blocked(&region.blocked, nx, ny) {
                    let cut: bool = d >= 4
                        && (tile_blocked(&region.blocked, node.x + dx, node.y) || tile_blocked(&region.blocked, node.x, node.y + dy));
                    if !cut {
                        proof {
                            assert(k != key_spec(sx as int, sy as int));
                            if nx == sx && ny == sy {
                                assert(false);
                            }
                        }
                        visited[k] = 1;
                        queue.push(BfsNode { x: nx, y: ny, parent: Some(qi) });
                    }
                }
            }
            d = d + 1;
        }
        qi = qi + 1;
    }

    let dx: i32 = sign(tx - sx);
    let dy: i32 = sign(ty - sy);
    let nx: i32 = sx + dx;
    let ny: i32 = sy + dy;
    if dx != 0 && dy != 0 {
        if !tile_blocked(&region.blocked, nx, ny) && !tile_blocked(&region.blocked, sx + dx, sy)
            && !tile_blocked(&region.blocked, sx, sy + dy)
        {
            return Some(Point { x: nx, y: ny });
        }
        if !tile_blocked(&region.blocked, sx + dx, sy) {
            return Some(Point { x: sx + dx, y: sy });
        }
        if !tile_blocked(&region.blocked, sx, sy + dy) {
            return Some(Point { x: sx, y: sy + dy });
        }
    } else if (dx != 0 || dy != 0) && !tile_blocked(&region.blocked, nx, ny) {
        return Some(Point { x: nx, y: ny });
    }
    None
}

/// The straight step from `(sx, sy)` towards `(tx, ty)`: along the longer axis, or
/// diagonally when both distances are equal.
pub open spec fn direct_walk_target(sx: int, sy: int, tx: int, ty: int) -> (int, int) {
    let dx = tx - sx;
    let dy = ty - sy;
    let dx_a = if dx < 0 { -dx } else { dx };
    let dy_a = if dy < 0 { -dy } else { dy };
    if dx_a > dy_a {
        (sx + sign_spec(dx), sy)
    } else if dy_a > dx_a {
        (sx, sy + sign_spec(dy))
    } else {
        (sx + sign_spec(dx), sy + sign_spec(dy))
    }
}

/// Whether the straight step is open; a diagonal also needs both corner tiles open.
pub open spec fn direct_walk_open(bl: Seq<u8>, sx: int, sy: int, tx: int, ty: int) -> bool {
    let t = direct_walk_target(sx, sy, tx, ty);
    let dx = tx - sx;
    let dy = ty - sy;
    let dx_a = if dx < 0 { -dx } else { dx };
    let dy_a = if dy < 0 { -dy } else { dy };
    &&& !tile_blocked_spec(bl, t.0, t.1)
    &&& dx_a == dy_a ==> !tile_blocked_spec(bl, sx + sign_spec(dx), sy) && !tile_blocked_spec(bl, sx, sy + sign_spec(dy))
}

/// What the player's walk step from `(sx, sy)` towards `(tx, ty)` may give: nothing on
/// the target itself; otherwise a walking step, which is the straight step when that is
/// open, and else the searched step.
pub open spec fn walk_choice(region: Region, sx: int, sy: int, tx: int, ty: int, r: Option<Point>) -> bool {
    let here = sx == tx && sy == ty;
    let bl = region.blocked@;
    &&& here ==> r is None
    &&& r matches Some(p) ==> is_walk_step(bl, sx, sy, p)
    &&& !here && direct_walk_open(bl, sx, sy, tx, ty) ==>
        (r matches Some(p) && (p.x as int, p.y as int) == direct_walk_target(sx, sy, tx, ty))
    &&& !here && !direct_walk_open(bl, sx, sy, tx, ty) ==> bfs_step_ok(region, sx, sy, tx, ty, r)
}

/// The player's next tile walking from `(sx, sy)` towards `(tx, ty)`: the straight step
/// along the longer axis (or diagonally when both distances are equal) when it is open
/// (a diagonal also needs both corner tiles open), else the searched step.
pub fn osrs_walk_step(sx: i32, sy: i32, tx: i32, ty: i32, region: &Region) -> (r: Option<Point>)
    requires
        region.wf(),
        on_grid(sx as int, sy as int),
        small(tx as int), small(ty as int),
    ensures
        (sx == tx && sy == ty) ==> r is None,
        r matches Some(p) ==> is_walk_step(region.blocked@, sx as int, sy as int, p),
        walk_choice(*region, sx as int, sy as int, tx as int, ty as int, r),
{
    if sx == tx && sy == ty {
        return None;
    }
    let dx: i32 = tx - sx;
    let dy: i32 = ty - sy;
    let dx_a: i32 = if dx < 0 { -dx } else { dx };
    let dy_a: i32 = if dy < 0 { -dy } else { dy };
    let xs: i32 = sign(dx);
    let ys: i32 = sign(dy);
    let (nx, ny) = if dx_a > dy_a {
        (sx + xs, sy)
    } else if dy_a > dx_a {
        (sx, sy + ys)
    } else {
        (sx + xs, sy + ys)
    };
    if dx_a == dy_a {
        if !tile_blocked(&region.blocked, nx, ny) && !tile_blocked(&region.blocked, sx + xs, sy)
            && !tile_blocked(&region.blocked, sx, sy + ys)
        {
            return Some(Point { x: nx, y: ny });
        }
    } else if !tile_blocked(&region.blocked, nx, ny) {
        return Some(Point { x: nx, y: ny });
    }
    player_bfs(sx, sy, tx, ty, region)
}

} // verus!
