use vstd::prelude::*;

use crate::mechanics::{collides_spec, collision_math, small};
use crate::region::{entity_on_grid, Region};
use crate::runtime::{Mob, mob_geom_ok};
use crate::setup::{fresh_mob, hl_create_mob, spawns_ok};
use crate::sight::{has_line_of_sight, is_within_melee_range, line_of_sight_spec, melee_adjacent};
use crate::spawn::{ParsedSpawnCode, Spawn, holds_mob, lemma_take_filter, spawned_mobs};
use crate::types::{Entity, MobType, Point};

verus! {

/// One of the three big monster kinds, whose styles a prayer can block.
pub open spec fn is_big_kind(t: MobType) -> bool {
    t == MobType::Mager || t == MobType::Ranger || t == MobType::Meleer
}

/// A big monster that needs line of sight (not melee reach) to threaten a tile.
pub open spec fn needs_sight(m: Mob) -> bool {
    is_big_kind(m.mob_type) && m.range != 1
}

/// A tile of the 64 by 64 board.
pub open spec fn on_board(x: int, y: int) -> bool {
    0 <= x < 64 && 0 <= y < 64
}

/// Whether a monster threatens a tile: melee reach for range 1, else its line of sight.
pub open spec fn mob_sees_tile(bl: Seq<u8>, m: Mob, x: int, y: int) -> bool {
    if m.range == 1 {
        melee_adjacent(x - m.x, y - m.y, m.size as int)
    } else {
        line_of_sight_spec(bl, m.x as int, m.y as int, x, y, m.size as int, m.range as int, true)
    }
}

/// Whether some monster of kind `t` threatens the tile.
pub open spec fn kind_sees_tile(bl: Seq<u8>, mobs: Seq<Mob>, t: MobType, x: int, y: int) -> bool {
    exists|i: int| 0 <= i < mobs.len() && (#[trigger] mobs[i]).mob_type == t && mob_sees_tile(bl, mobs[i], x, y)
}

/// Whether a pillar covers the tile.
pub open spec fn pillar_on_tile(pillars: Seq<Entity>, x: int, y: int) -> bool {
    exists|i: int| 0 <= i < pillars.len()
        && collides_spec((#[trigger] pillars[i]).x as int, pillars[i].y as int, pillars[i].size as int, x, y, 1)
}

/// Whether a monster stands on the tile.
pub open spec fn mob_on_tile(mobs: Seq<Mob>, x: int, y: int) -> bool {
    exists|i: int| 0 <= i < mobs.len()
        && collides_spec((#[trigger] mobs[i]).x as int, mobs[i].y as int, mobs[i].size as int, x, y, 1)
}

/// A tile is excluded when a pillar or a monster stands on it, or when at least two of
/// the three big kinds threaten it (no single prayer could cover it).
pub open spec fn tile_excluded_spec(region: Region, mobs: Seq<Mob>, x: int, y: int) -> bool {
    let bl = region.blocked@;
    let a = kind_sees_tile(bl, mobs, MobType::Mager, x, y);
    let b = kind_sees_tile(bl, mobs, MobType::Ranger, x, y);
    let c = kind_sees_tile(bl, mobs, MobType::Meleer, x, y);
    ||| pillar_on_tile(region.pillars@, x, y)
    ||| mob_on_tile(mobs, x, y)
    ||| (a && b) || (a && c) || (b && c)
}

/// A tile threatened by monsters of two different big kinds is excluded, whichever two
/// they are (mager and ranger, mager and meleer, ranger and meleer); and an excluded tile
/// that no pillar or monster stands on is threatened by two monsters of different big
/// kinds.
pub proof fn law_two_big_kinds_exclude(region: Region, mobs: Seq<Mob>, x: int, y: int, i: int, j: int)
    requires
        0 <= i < mobs.len(),
        0 <= j < mobs.len(),
    ensures
        is_big_kind(mobs[i].mob_type) && is_big_kind(mobs[j].mob_type) && mobs[i].mob_type != mobs[j].mob_type
            && mob_sees_tile(region.blocked@, mobs[i], x, y) && mob_sees_tile(region.blocked@, mobs[j], x, y)
            ==> tile_excluded_spec(region, mobs, x, y),
        tile_excluded_spec(region, mobs, x, y) && !pillar_on_tile(region.pillars@, x, y) && !mob_on_tile(mobs, x, y)
            ==> exists|k1: int, k2: int| 0 <= k1 < mobs.len() && 0 <= k2 < mobs.len()
                && is_big_kind((#[trigger] mobs[k1]).mob_type) && is_big_kind((#[trigger] mobs[k2]).mob_type)
                && mobs[k1].mob_type != mobs[k2].mob_type
                && mob_sees_tile(region.blocked@, mobs[k1], x, y) && mob_sees_tile(region.blocked@, mobs[k2], x, y),
{
    let bl = region.blocked@;
    if is_big_kind(mobs[i].mob_type) && is_big_kind(mobs[j].mob_type) && mobs[i].mob_type != mobs[j].mob_type
        && mob_sees_tile(bl, mobs[i], x, y) && mob_sees_tile(bl, mobs[j], x, y) {
        assert(kind_sees_tile(bl, mobs, mobs[i].mob_type, x, y));
        assert(kind_sees_tile(bl, mobs, mobs[j].mob_type, x, y));
    }
    if tile_excluded_spec(region, mobs, x, y) && !pillar_on_tile(region.pillars@, x, y) && !mob_on_tile(mobs, x, y) {
        let a = kind_sees_tile(bl, mobs, MobType::Mager, x, y);
        let b = kind_sees_tile(bl, mobs, MobType::Ranger, x, y);
        let c = kind_sees_tile(bl, mobs, MobType::Meleer, x, y);
        let t1 = if a { MobType::Mager } else { MobType::Ranger };
        let t2 = if a && b { MobType::Ranger } else { MobType::Meleer };
        assert(kind_sees_tile(bl, mobs, t1, x, y) && kind_sees_tile(bl, mobs, t2, x, y));
        let k1 = choose|k: int| 0 <= k < mobs.len() && (#[trigger] mobs[k]).mob_type == t1 && mob_sees_tile(bl, mobs[k], x, y);
        let k2 = choose|k: int| 0 <= k < mobs.len() && (#[trigger] mobs[k]).mob_type == t2 && mob_sees_tile(bl, mobs[k], x, y);
        assert(is_big_kind(mobs[k1].mob_type) && is_big_kind(mobs[k2].mob_type));
    }
}

/// Monsters that tile checks can run on: in range, and on the board where they need
/// sight.
pub open spec fn check_mobs_ok(mobs: Seq<Mob>) -> bool {
    forall|i: int| 0 <= i < mobs.len() ==> mob_geom_ok(#[trigger] mobs[i])
        && (needs_sight(mobs[i]) ==> on_board(mobs[i].x as int, mobs[i].y as int))
}

/// A tile that tile checks can run on against these monsters: in range, and on the
/// board where some monster needs sight of it.
pub open spec fn check_tile_ok(mobs: Seq<Mob>, x: int, y: int) -> bool {
    &&& small(x)
    &&& small(y)
    &&& (on_board(x, y) || forall|i: int| 0 <= i < mobs.len() ==> !needs_sight(#[trigger] mobs[i]))
}

/// Whether a tile is excluded from scoring: a pillar or monster stands on it, or two or
/// more of the mager, ranger and meleer threaten it.
pub fn check_tile_excluded(x: i32, y: i32, mobs: &[Mob], region: &Region) -> (r: bool)
    requires
        region.wf(),
        check_mobs_ok(mobs@),
        check_tile_ok(mobs@, x as int, y as int),
    ensures
        r == tile_excluded_spec(*region, mobs@, x as int, y as int),
{
    let mut i: usize = 0;
    while i < region.pillars.len()
        invariant
            region.wf(),
            small(x as int), small(y as int),
            i <= region.pillars@.len(),
            forall|j: int| 0 <= j < i ==> !collides_spec((#[trigger] region.pillars@[j]).x as int,
                region.pillars@[j].y as int, region.pillars@[j].size as int, x as int, y as int, 1),
        decreases region.pillars@.len() - i,
    {
        let p: Entity = region.pillars[i];
        assert(entity_on_grid(region.pillars@[i as int]));
        if collision_math(p.x, p.y, p.size, x, y, 1) {
            return true;
        }
        i = i + 1;
    }
    let mut i: usize = 0;
    while i < mobs.len()
        invariant
            check_mobs_ok(mobs@),
            small(x as int), small(y as int),
            !pillar_on_tile(region.pillars@, x as int, y as int),
            i <= mobs@.len(),
            forall|j: int| 0 <= j < i ==> !collides_spec((#[trigger] mobs@[j]).x as int,
                mobs@[j].y as int, mobs@[j].size as int, x as int, y as int, 1),
        decreases mobs@.len() - i,
    {
        let m: &Mob = &mobs[i];
        assert(mob_geom_ok(mobs@[i as int]));
        if collision_math(m.x, m.y, m.size, x, y, 1) {
            return true;
        }
        i = i + 1;
    }
    let ghost bl = region.blocked@;
    let mut has_mager: bool = false;
    let mut has_ranger: bool = false;
    let mut has_meleer: bool = false;
    let mut i: usize = 0;
    while i < mobs.len()
        invariant
            region.wf(),
            bl == region.blocked@,
            check_mobs_ok(mobs@),
            check_tile_ok(mobs@, x as int, y as int),
            i <= mobs@.len(),
            has_mager == kind_sees_tile(bl, mobs@.take(i as int), MobType::Mager, x as int, y as int),
            has_ranger == kind_sees_tile(bl, mobs@.take(i as int), MobType::Ranger, x as int, y as int),
            has_meleer == kind_sees_tile(bl, mobs@.take(i as int), MobType::Meleer, x as int, y as int),
        decreases mobs@.len() - i,
    {
        let m: &Mob = &mobs[i];
        let ghost mi = mobs@[i as int];
        let ghost before = mobs@.take(i as int);
        let ghost after = mobs@.take(i as int + 1);
        assert(mob_geom_ok(mi));
        if m.mob_type == MobType::Mager || m.mob_type == MobType::Ranger || m.mob_type == MobType::Meleer {
            let has: bool = if m.range == 1 {
                is_within_melee_range(m, x, y)
            } else {
                assert(on_board(x as int, y as int));
                has_line_of_sight(region, Point { x: m.x, y: m.y }, Point { x, y }, m.size, m.range, true)
            };
            assert(has == mob_sees_tile(bl, mi, x as int, y as int));
            if has {
                match m.mob_type {
                    MobType::Mager => { has_mager = true; },
                    MobType::Ranger => { has_ranger = true; },
                    MobType::Meleer => { has_meleer = true; },
                    _ => {},
                }
            }
        }
        proof {
            assert forall|t: MobType| kind_sees_tile(bl, after, t, x as int, y as int)
                == (kind_sees_tile(bl, before, t, x as int, y as int)
                    || (mi.mob_type == t && mob_sees_tile(bl, mi, x as int, y as int))) by {
                if kind_sees_tile(bl, after, t, x as int, y as int) {
                    let k = choose|k: int| 0 <= k < after.len() && (#[trigger] after[k]).mob_type == t
                        && mob_sees_tile(bl, after[k], x as int, y as int);
                    if k < i {
                        assert(before[k] == after[k]);
                    }
                }
                if kind_sees_tile(bl, before, t, x as int, y as int) {
                    let k = choose|k: int| 0 <= k < before.len() && (#[trigger] before[k]).mob_type == t
                        && mob_sees_tile(bl, before[k], x as int, y as int);
                    assert(after[k] == before[k]);
                }
                if mi.mob_type == t && mob_sees_tile(bl, mi, x as int, y as int) {
                    assert(after[i as int] == mi);
                }
            }
        }
        i = i + 1;
    }
    proof {
        assert(mobs@.take(mobs@.len() as int) =~= mobs@);
        assert(!mob_on_tile(mobs@, x as int, y as int));
    }
    let count: usize = (if has_mager { 1usize } else { 0usize }) + (if has_ranger { 1usize } else { 0usize })
        + (if has_meleer { 1usize } else { 0usize });
    count >= 2
}

/// Fresh monsters for the spawns of a parsed code, numbered in order, as tile checks see
/// the wave before it moves.
pub fn build_test_mobs(parsed: &ParsedSpawnCode) -> (r: Vec<Mob>)
    requires
        spawns_ok(parsed.spawns@),
    ensures
        r@.len() == spawned_mobs(parsed.spawns@).len(),
        forall|k: int| 0 <= k < r@.len() ==> {
            let s = #[trigger] spawned_mobs(parsed.spawns@)[k];
            fresh_mob(r@[k], s.mob_type->Some_0, s.x, s.y, k as usize)
        },
        check_mobs_ok(r@),
{
    let ghost sp = parsed.spawns@;
    let mut test_mobs: Vec<Mob> = Vec::new();
    let mut i: usize = 0;
    while i < parsed.spawns.len()
        invariant
            sp == parsed.spawns@,
            spawns_ok(sp),
            i <= sp.len(),
            test_mobs@.len() == spawned_mobs(sp.take(i as int)).len(),
            forall|k: int| 0 <= k < test_mobs@.len() ==> {
                let s = #[trigger] spawned_mobs(sp.take(i as int))[k];
                fresh_mob(test_mobs@[k], s.mob_type->Some_0, s.x, s.y, k as usize)
            },
            forall|k: int| 0 <= k < test_mobs@.len() ==> {
                let m = #[trigger] test_mobs@[k];
                &&& 0 <= m.x < 64 && 0 <= m.y < 64
                &&& 1 <= m.size <= 4
            },
        decreases sp.len() - i,
    {
        proof {
            lemma_take_filter(sp, |s: Spawn| holds_mob(s), i as int);
        }
        let s: Spawn = parsed.spawns[i];
        if let Some(mob_type) = s.mob_type {
            let id: usize = test_mobs.len();
            let m: Mob = hl_create_mob(mob_type, s.x, s.y, id);
            test_mobs.push(m);
        }
        i = i + 1;
    }
    proof {
        assert(sp.take(sp.len() as int) =~= sp);
        assert forall|k: int| 0 <= k < test_mobs@.len() implies mob_geom_ok(#[trigger] test_mobs@[k])
            && (needs_sight(test_mobs@[k]) ==> on_board(test_mobs@[k].x as int, test_mobs@[k].y as int)) by {
            let m = test_mobs@[k];
            assert(0 <= m.x < 64 && 0 <= m.y < 64 && 1 <= m.size <= 4);
        }
    }
    test_mobs
}

/// The tiles that tile checks can run on against these monsters.
pub open spec fn check_tiles_ok(mobs: Seq<Mob>, tiles: Seq<Point>) -> bool {
    forall|i: int| 0 <= i < tiles.len() ==> check_tile_ok(mobs, (#[trigger] tiles[i]).x as int, tiles[i].y as int)
}

/// Splits tiles into those excluded from scoring and those eligible, each in the given
/// order.
pub fn exclude_tiles(tiles: &[Point], mobs: &[Mob], region: &Region) -> (r: (Vec<Point>, Vec<Point>))
    requires
        region.wf(),
        check_mobs_ok(mobs@),
        check_tiles_ok(mobs@, tiles@),
    ensures
        r.0@ == tiles@.filter(|t: Point| tile_excluded_spec(*region, mobs@, t.x as int, t.y as int)),
        r.1@ == tiles@.filter(|t: Point| !tile_excluded_spec(*region, mobs@, t.x as int, t.y as int)),
{
    let ghost ex = |t: Point| tile_excluded_spec(*region, mobs@, t.x as int, t.y as int);
    let ghost el = |t: Point| !tile_excluded_spec(*region, mobs@, t.x as int, t.y as int);
    let mut excluded: Vec<Point> = Vec::new();
    let mut eligible: Vec<Point> = Vec::new();
    let mut i: usize = 0;
    while i < tiles.len()
        invariant
            region.wf(),
            check_mobs_ok(mobs@),
            check_tiles_ok(mobs@, tiles@),
            i <= tiles@.len(),
            ex == |t: Point| tile_excluded_spec(*region, mobs@, t.x as int, t.y as int),
            el == |t: Point| !tile_excluded_spec(*region, mobs@, t.x as int, t.y as int),
            excluded@ == tiles@.take(i as int).filter(ex),
            eligible@ == tiles@.take(i as int).filter(el),
        decreases tiles@.len() - i,
    {
        proof {
            lemma_take_filter(tiles@, ex, i as int);
            lemma_take_filter(tiles@, el, i as int);
        }
        let t: Point = tiles[i];
        assert(check_tile_ok(mobs@, tiles@[i as int].x as int, tiles@[i as int].y as int));
        if check_tile_excluded(t.x, t.y, mobs, region) {
            excluded.push(t);
        } else {
            eligible.push(t);
        }
        i = i + 1;
    }
    proof {
        assert(tiles@.take(tiles@.len() as int) =~= tiles@);
    }
    (excluded, eligible)
}

/// Excluded and eligible tiles split the tiles: every tile lands in exactly one of the
/// two lists, so their lengths add up to the number of tiles.
pub proof fn lemma_exclude_partition(region: Region, mobs: Seq<Mob>, tiles: Seq<Point>)
    ensures
        tiles.filter(|t: Point| tile_excluded_spec(region, mobs, t.x as int, t.y as int)).len()
            + tiles.filter(|t: Point| !tile_excluded_spec(region, mobs, t.x as int, t.y as int)).len() == tiles.len(),
    decreases tiles.len(),
{
    let ex = |t: Point| tile_excluded_spec(region, mobs, t.x as int, t.y as int);
    let el = |t: Point| !tile_excluded_spec(region, mobs, t.x as int, t.y as int);
    reveal_with_fuel(Seq::<_>::filter, 1);
    if tiles.len() > 0 {
        lemma_exclude_partition(region, mobs, tiles.drop_last());
        assert(tiles.filter(ex) == if ex(tiles.last()) { tiles.drop_last().filter(ex).push(tiles.last()) } else { tiles.drop_last().filter(ex) });
        assert(tiles.filter(el) == if el(tiles.last()) { tiles.drop_last().filter(el).push(tiles.last()) } else { tiles.drop_last().filter(el) });
    }
}

} // verus!
