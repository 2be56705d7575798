use vstd::prelude::*;

use crate::constants::{ARENA_CELLS, MAX_MOB_IDS};
use crate::events::{AttackEvent, MobInit};
use crate::loadout::Loadout;
use crate::mechanics::{collides_spec, collides_with_entities, collides_with_mobs, entity_ok, mob_atk_speed,
    mob_atk_speed_spec, mob_blocks, mob_has_dig, mob_has_flicker, mob_hp, mob_hp_spec, mob_range, mob_range_spec,
    mob_size, mob_size_spec, mobs_geom_ok, occupancy_consistent, rebuild_mob_occupancy, small};
use crate::queue::{MobProjectileQueue, PlayerProjectileQueue, SmallQueue};
use crate::region::{Region, tile_blocked, tile_blocked_spec};
use crate::rng::{Mulberry32, mulberry_next_state, scale_roll};
use crate::runtime::{Mob, Player, geom_bound, mob_geom_ok};
use crate::spawn::{ParsedSpawnCode, Spawn, holds_mob, spawned_mobs};
use crate::state::{DelayedBlobletSpawn, State, dead_total, ids_ok, mob_ok, mob_pos_ok, mobs_ok, sim_loadout_ok,
    player_projectiles_ok, mob_projectiles_ok};
use crate::types::{MobType, PillarConfig, Point};

verus! {

/// A fresh monster of a kind at a tile, with the numbers of its kind.
pub open spec fn fresh_mob(m: Mob, mob_type: MobType, x: i32, y: i32, id: usize) -> bool {
    &&& m.id == id
    &&& m.mob_type == mob_type
    &&& m.x == x
    &&& m.y == y
    &&& m.size == mob_size_spec(mob_type)
    &&& m.hp == mob_hp_spec(mob_type)
    &&& m.max_hp == mob_hp_spec(mob_type)
    &&& m.atk_speed == mob_atk_speed_spec(mob_type)
    &&& m.range == mob_range_spec(mob_type)
    &&& m.attack_delay == 0
    &&& m.stunned == 0
    &&& m.frozen == 0
    &&& !m.dead
    &&& m.dying == -1
    &&& m.dying_start_tick == -1
    &&& m.corpse_removal_tick is None
    &&& m.pending_removal_tick is None
    &&& !m.revived_once
    &&& !m.has_los
    &&& !m.had_los
    &&& m.los_checked_tick == -1
    &&& m.is_blob == (mob_type == MobType::Blob)
    &&& !m.blob_scan_prayer
    &&& m.last_scan_tick is None
    &&& m.has_dig == (mob_type == MobType::Meleer)
    &&& m.dig_timer == 0
    &&& m.dig_location is None
    &&& m.has_flicker == (mob_type == MobType::Mager)
    &&& !m.flickering
    &&& m.incoming_projectiles.wf()
    &&& m.incoming_projectiles.items().len() == 0
    &&& m.no_los_ticks == 0
    &&& m.current_style is None
    &&& m.parent_blob_id is None
    &&& m.inf_num == 0
}

/// A fresh monster of `mob_type` at `(x, y)` with id `id`.
pub fn hl_create_mob(mob_type: MobType, x: i32, y: i32, id: usize) -> (r: Mob)
    ensures
        fresh_mob(r, mob_type, x, y, id),
{
    let hp: i32 = mob_hp(mob_type);
    Mob {
        id,
        mob_type,
        x,
        y,
        size: mob_size(mob_type),
        hp,
        max_hp: hp,
        atk_speed: mob_atk_speed(mob_type),
        range: mob_range(mob_type),
        attack_delay: 0,
        stunned: 0,
        frozen: 0,
        dead: false,
        dying: -1,
        dying_start_tick: -1,
        corpse_removal_tick: None,
        pending_removal_tick: None,
        revived_once: false,
        has_los: false,
        had_los: false,
        los_checked_tick: -1,
        is_blob: mob_type == MobType::Blob,
        blob_scan_prayer: false,
        last_scan_tick: None,
        has_dig: mob_has_dig(mob_type),
        dig_timer: 0,
        dig_location: None,
        has_flicker: mob_has_flicker(mob_type),
        flickering: false,
        incoming_projectiles: SmallQueue::new(),
        no_los_ticks: 0,
        current_style: None,
        parent_blob_id: None,
        inf_num: 0,
    }
}

/// A fresh monster on a valid position is in range on any tick.
pub proof fn lemma_fresh_mob_ok(m: Mob, mob_type: MobType, x: i32, y: i32, id: usize, tick: int, max_hit: int)
    requires
        fresh_mob(m, mob_type, x, y, id),
        mob_pos_ok(mob_type, x as int, y as int),
        tick >= 0,
    ensures
        mob_ok(m, tick, max_hit),
{
}

/// The player at `(x, y)`, ready to attack, with auto-retaliate on and the loadout's range.
pub fn hl_create_player(x: i32, y: i32, loadout: &Loadout) -> (r: Player)
    ensures
        r.x == x,
        r.y == y,
        r.attack_delay == 0,
        r.range == loadout.range,
        r.incoming_projectiles.wf(),
        r.incoming_projectiles.items().len() == 0,
        r.auto_retaliate,
        r.last_hit,
        r.aggro is None,
        r.last_attacker is None,
{
    Player {
        x,
        y,
        attack_delay: 0,
        range: loadout.range,
        incoming_projectiles: SmallQueue::new(),
        auto_retaliate: true,
        last_hit: true,
        aggro: None,
        last_attacker: None,
    }
}

/// Records the starting hitpoints of monster id `id` (ids beyond the table are not
/// recorded) and widens the recorded range to include it.
pub fn set_mob_init(mob_init_hp: &mut [Option<MobInit>; 64], mob_init_len: &mut usize, id: usize, hp: i32)
    ensures
        id >= MAX_MOB_IDS ==> final(mob_init_hp)@ == old(mob_init_hp)@ && *final(mob_init_len) == *old(mob_init_len),
        id < MAX_MOB_IDS ==> final(mob_init_hp)@ == old(mob_init_hp)@.update(id as int, Some(MobInit { hp }))
            && *final(mob_init_len) == if *old(mob_init_len) >= id + 1 { *old(mob_init_len) } else { (id + 1) as usize },
{
    if id >= MAX_MOB_IDS {
        return;
    }
    mob_init_hp[id] = Some(MobInit { hp });
    if *mob_init_len < id + 1 {
        *mob_init_len = id + 1;
    }
}

/// Maps monster id `id` to index `idx` (ids beyond the table are not mapped).
pub fn set_id_to_idx(id_to_idx: &mut [Option<usize>; 64], id: usize, idx: usize)
    ensures
        id >= MAX_MOB_IDS ==> final(id_to_idx)@ == old(id_to_idx)@,
        id < MAX_MOB_IDS ==> final(id_to_idx)@ == old(id_to_idx)@.update(id as int, Some(idx)),
{
    if id < MAX_MOB_IDS {
        id_to_idx[id] = Some(idx);
    }
}

/// The nine tiles on which nibblers may spawn, column by column.
pub open spec fn nibbler_tile(k: int) -> (int, int) {
    (9 + k / 3, 12 + k % 3)
}

/// Whether a tile is one of the nine nibbler tiles.
pub open spec fn nibbler_area(x: int, y: int) -> bool {
    9 <= x <= 11 && 12 <= y <= 14
}

/// The generator's state after `n` draws from state `s`.
pub open spec fn generator_after(s: u32, n: nat) -> u32
    decreases n,
{
    if n == 0 {
        s
    } else {
        mulberry_next_state(generator_after(s, (n - 1) as nat))
    }
}

/// Whether a nibbler can spawn on `(x, y)`: the tile is open and no living monster
/// stands on it.
pub open spec fn nibbler_spot_free(mobs: Seq<Mob>, bl: Seq<u8>, x: int, y: int) -> bool {
    &&& !tile_blocked_spec(bl, x, y)
    &&& forall|k: int| 0 <= k < mobs.len() ==> !#[trigger] mob_blocks(mobs, k, x, y, 1, None, false)
}

/// Whether position `p` holds nibbler tile `t`.
pub open spec fn at_nibbler_tile(p: Point, t: int) -> bool {
    p.x == nibbler_tile(t).0 && p.y == nibbler_tile(t).1
}

/// Whether nibbler tile `t` is among the first nine positions.
pub open spec fn tile_covered(ps: Seq<Point>, t: int) -> bool {
    exists|u: int| 0 <= u < 9 && #[trigger] at_nibbler_tile(ps[u], t)
}

/// Spawns up to three nibblers: shuffles the nine nibbler tiles with the generator
/// (a Fisher-Yates pass from the last tile down, eight draws) and puts a fresh nibbler,
/// with the next id, on each of the first three tiles that are open and free of
/// monsters. So the nibblers stand on distinct free tiles, and fewer than three spawn
/// only when every free tile got one.
pub fn spawn_nibblers(mobs: &mut Vec<Mob>, region: &Region, rng: &mut Mulberry32, id_counter: &mut usize)
    requires
        mobs_geom_ok(old(mobs)@),
        *old(id_counter) <= usize::MAX - 3,
    ensures
        *final(id_counter) == *old(id_counter) + (final(mobs)@.len() - old(mobs)@.len()),
        old(mobs)@.len() <= final(mobs)@.len() <= old(mobs)@.len() + 3,
        final(mobs)@.subrange(0, old(mobs)@.len() as int) == old(mobs)@,
        forall|k: int| old(mobs)@.len() <= k < final(mobs)@.len() ==> {
            let m = #[trigger] final(mobs)@[k];
            &&& fresh_mob(m, MobType::Nibbler, m.x, m.y, (*old(id_counter) + (k - old(mobs)@.len())) as usize)
            &&& nibbler_area(m.x as int, m.y as int)
            &&& !tile_blocked_spec(region.blocked@, m.x as int, m.y as int)
            &&& nibbler_spot_free(old(mobs)@, region.blocked@, m.x as int, m.y as int)
        },
        forall|k1: int, k2: int| old(mobs)@.len() <= k1 < final(mobs)@.len() && old(mobs)@.len() <= k2 < final(mobs)@.len()
            && k1 != k2 ==> !(#[trigger] final(mobs)@[k1].x == #[trigger] final(mobs)@[k2].x
                && final(mobs)@[k1].y == final(mobs)@[k2].y),
        final(mobs)@.len() < old(mobs)@.len() + 3 ==> forall|t: int| 0 <= t < 9
            && nibbler_spot_free(old(mobs)@, region.blocked@, #[trigger] nibbler_tile(t).0, nibbler_tile(t).1) ==>
            exists|k: int| old(mobs)@.len() <= k < final(mobs)@.len() && final(mobs)@[k].x == nibbler_tile(t).0
                && #[trigger] final(mobs)@[k].y == nibbler_tile(t).1,
        final(rng).s == generator_after(old(rng).s, 8),
{
    let mut positions: Vec<Point> = Vec::new();
    let mut k: i32 = 0;
    while k < 9
        invariant
            0 <= k <= 9,
            positions@.len() == k,
            forall|t: int| 0 <= t < k ==> (#[trigger] positions@[t]).x == nibbler_tile(t).0 && positions@[t].y == nibbler_tile(t).1,
        decreases 9 - k,
    {
        positions.push(Point { x: 9 + k / 3, y: 12 + k % 3 });
        k = k + 1;
    }
    proof {
        assert forall|t1: int, t2: int| 0 <= t1 < 9 && 0 <= t2 < 9 && t1 != t2 implies
            !(#[trigger] positions@[t1].x == #[trigger] positions@[t2].x && positions@[t1].y == positions@[t2].y) by {
            assert(0 <= t1 / 3 < 3 && 0 <= t2 / 3 < 3);
            assert(t1 == 3 * (t1 / 3) + t1 % 3);
            assert(t2 == 3 * (t2 / 3) + t2 % 3);
        }
        assert forall|t: int| 0 <= t < 9 implies #[trigger] tile_covered(positions@, t) by {
            assert(at_nibbler_tile(positions@[t], t));
        }
    }
    let ghost s0 = rng.s;
    let mut i: usize = 8;
    while i >= 1
        invariant
            i <= 8,
            positions@.len() == 9,
            forall|t: int| 0 <= t < 9 ==> nibbler_area((#[trigger] positions@[t]).x as int, positions@[t].y as int),
            forall|t1: int, t2: int| 0 <= t1 < 9 && 0 <= t2 < 9 && t1 != t2 ==>
                !(#[trigger] positions@[t1].x == #[trigger] positions@[t2].x && positions@[t1].y == positions@[t2].y),
            forall|t: int| 0 <= t < 9 ==> #[trigger] tile_covered(positions@, t),
            rng.s == generator_after(s0, (8 - i) as nat),
        decreases i,
    {
        let ghost before = positions@;
        let roll: u32 = rng.next_u32();
        let j64: i64 = scale_roll(roll, (i + 1) as i64);
        let j: usize = j64 as usize;
        let a: Point = positions[i];
        let b: Point = positions[j];
        positions.set(i, b);
        positions.set(j, a);
        proof {
            assert(rng.s == generator_after(s0, (8 - (i - 1)) as nat));
            assert forall|t: int| 0 <= t < 9 implies nibbler_area((#[trigger] positions@[t]).x as int, positions@[t].y as int) by {
                if t != i && t != j {
                }
            }
            assert forall|t: int| 0 <= t < 9 implies positions@[t] == before[if t == i { j as int } else if t == j { i as int } else { t }] by {}
            assert forall|t1: int, t2: int| 0 <= t1 < 9 && 0 <= t2 < 9 && t1 != t2 implies
                !(#[trigger] positions@[t1].x == #[trigger] positions@[t2].x && positions@[t1].y == positions@[t2].y) by {
                let o1 = if t1 == i { j as int } else if t1 == j { i as int } else { t1 };
                let o2 = if t2 == i { j as int } else if t2 == j { i as int } else { t2 };
                assert(positions@[t1] == before[o1]);
                assert(positions@[t2] == before[o2]);
                assert(!(before[o1].x == before[o2].x && before[o1].y == before[o2].y));
            }
            assert forall|t: int| 0 <= t < 9 implies #[trigger] tile_covered(positions@, t) by {
                assert(tile_covered(before, t));
                let u = choose|u: int| 0 <= u < 9 && #[trigger] at_nibbler_tile(before[u], t);
                let w = if u == i { j as int } else if u == j { i as int } else { u };
                assert(positions@[w] == before[u]);
                assert(at_nibbler_tile(positions@[w], t));
            }
        }
        i = i - 1;
    }
    let ghost base = mobs@;
    let ghost id0: int = *id_counter as int;
    let ghost bl = region.blocked@;
    let ghost mut used: Seq<int> = Seq::empty();
    assert(mobs@.subrange(0, base.len() as int) =~= base);
    let mut spawned: usize = 0;
    let mut p: usize = 0;
    while p < 9 && spawned < 3
        invariant
            p <= 9,
            spawned <= 3,
            bl == region.blocked@,
            positions@.len() == 9,
            forall|t: int| 0 <= t < 9 ==> nibbler_area((#[trigger] positions@[t]).x as int, positions@[t].y as int),
            forall|t1: int, t2: int| 0 <= t1 < 9 && 0 <= t2 < 9 && t1 != t2 ==>
                !(#[trigger] positions@[t1].x == #[trigger] positions@[t2].x && positions@[t1].y == positions@[t2].y),
            forall|t: int| 0 <= t < 9 ==> #[trigger] tile_covered(positions@, t),
            mobs@.len() == base.len() + spawned,
            *id_counter == id0 + spawned,
            id0 <= usize::MAX - 3,
            mobs@.subrange(0, base.len() as int) == base,
            mobs_geom_ok(mobs@),
            used.len() == spawned,
            forall|j: int| 0 <= j < spawned ==> 0 <= #[trigger] used[j] < p,
            forall|j1: int, j2: int| 0 <= j1 < j2 < spawned ==> #[trigger] used[j1] < #[trigger] used[j2],
            forall|j: int| 0 <= j < spawned ==> mobs@[base.len() + j].x == positions@[#[trigger] used[j]].x
                && mobs@[base.len() + j].y == positions@[used[j]].y,
            forall|u: int| 0 <= u < p && nibbler_spot_free(base, bl, (#[trigger] positions@[u]).x as int, positions@[u].y as int)
                ==> exists|j: int| 0 <= j < spawned && #[trigger] used[j] == u,
            forall|k: int| base.len() <= k < mobs@.len() ==> {
                let m = #[trigger] mobs@[k];
                &&& fresh_mob(m, MobType::Nibbler, m.x, m.y, (id0 + (k - base.len())) as usize)
                &&& nibbler_area(m.x as int, m.y as int)
                &&& !tile_blocked_spec(region.blocked@, m.x as int, m.y as int)
                &&& nibbler_spot_free(base, bl, m.x as int, m.y as int)
            },
        decreases 9 - p,
    {
        let pos: Point = positions[p];
        assert(nibbler_area(pos.x as int, pos.y as int)) by {
            assert(positions@[p as int] == pos);
        }
        let open: bool = !tile_blocked(&region.blocked, pos.x, pos.y);
        let hit: Option<usize> = if open { collides_with_mobs(pos.x, pos.y, 1, mobs.as_slice(), None, false) } else { None };
        let ghost cur = mobs@;
        proof {
            if open && hit is Some {
                let c = hit->0 as int;
                assert(mob_blocks(cur, c, pos.x as int, pos.y as int, 1, None, false));
                if c < base.len() {
                    assert(cur.subrange(0, base.len() as int)[c] == cur[c]);
                    assert(mob_blocks(base, c, pos.x as int, pos.y as int, 1, None, false));
                } else {
                    let jj = c - base.len();
                    assert(cur[base.len() + jj].x == positions@[used[jj]].x);
                    assert(used[jj] < p);
                    assert(collides_spec(pos.x as int, pos.y as int, 1, cur[c].x as int, cur[c].y as int, cur[c].size as int));
                    assert(cur[c].size == 1);
                    assert(!(positions@[p as int].x == positions@[used[jj]].x && positions@[p as int].y == positions@[used[jj]].y));
                    assert(false);
                }
                assert(!nibbler_spot_free(base, bl, pos.x as int, pos.y as int));
            }
        }
        if open && hit.is_none() {
            proof {
                assert forall|k: int| 0 <= k < base.len() implies !#[trigger] mob_blocks(base, k, pos.x as int, pos.y as int, 1, None, false) by {
                    assert(cur.subrange(0, base.len() as int)[k] == cur[k]);
                    assert(!mob_blocks(cur, k, pos.x as int, pos.y as int, 1, None, false));
                }
                assert(nibbler_spot_free(base, bl, pos.x as int, pos.y as int));
            }
            let nib: Mob = hl_create_mob(MobType::Nibbler, pos.x, pos.y, *id_counter);
            let ghost before = mobs@;
            let ghost used0 = used;
            mobs.push(nib);
            *id_counter = *id_counter + 1;
            proof {
                used = used.push(p as int);
                assert(mobs@.subrange(0, base.len() as int) =~= before.subrange(0, base.len() as int));
                assert forall|k: int| 0 <= k < mobs@.len() implies mob_geom_ok(#[trigger] mobs@[k]) by {
                    if k < before.len() {
                        assert(mobs@[k] == before[k]);
                    }
                }
                assert forall|j: int| 0 <= j < spawned + 1 implies mobs@[base.len() + j].x == positions@[#[trigger] used[j]].x
                    && mobs@[base.len() + j].y == positions@[used[j]].y by {
                    if j < spawned {
                        assert(used[j] == used0[j]);
                        assert(mobs@[base.len() + j] == before[base.len() + j]);
                    }
                }
                assert forall|u: int| 0 <= u < p + 1 && nibbler_spot_free(base, bl, (#[trigger] positions@[u]).x as int, positions@[u].y as int)
                    implies exists|j: int| 0 <= j < spawned + 1 && #[trigger] used[j] == u by {
                    if u < p {
                        let j = choose|j: int| 0 <= j < spawned && #[trigger] used0[j] == u;
                        assert(used[j] == u);
                    } else {
                        assert(used[spawned as int] == u);
                    }
                }
                assert forall|j1: int, j2: int| 0 <= j1 < j2 < spawned + 1 implies #[trigger] used[j1] < #[trigger] used[j2] by {
                    if j2 < spawned {
                        assert(used[j1] == used0[j1] && used[j2] == used0[j2]);
                    } else {
                        assert(used[j1] == used0[j1]);
                    }
                }
                assert forall|k: int| base.len() <= k < mobs@.len() implies {
                    let m = #[trigger] mobs@[k];
                    &&& fresh_mob(m, MobType::Nibbler, m.x, m.y, (id0 + (k - base.len())) as usize)
                    &&& nibbler_area(m.x as int, m.y as int)
                    &&& !tile_blocked_spec(region.blocked@, m.x as int, m.y as int)
                    &&& nibbler_spot_free(base, bl, m.x as int, m.y as int)
                } by {
                    if k < before.len() {
                        assert(mobs@[k] == before[k]);
                    }
                }
            }
            spawned = spawned + 1;
        } else {
            proof {
                assert forall|u: int| 0 <= u < p + 1 && nibbler_spot_free(base, bl, (#[trigger] positions@[u]).x as int, positions@[u].y as int)
                    implies exists|j: int| 0 <= j < spawned && #[trigger] used[j] == u by {
                    if u == p {
                        assert(positions@[u] == pos);
                    }
                }
            }
        }
        p = p + 1;
    }
    proof {
        assert forall|k1: int, k2: int| base.len() <= k1 < mobs@.len() && base.len() <= k2 < mobs@.len() && k1 != k2 implies
            !(#[trigger] mobs@[k1].x == #[trigger] mobs@[k2].x && mobs@[k1].y == mobs@[k2].y) by {
            let j1 = k1 - base.len();
            let j2 = k2 - base.len();
            assert(mobs@[base.len() + j1].x == positions@[used[j1]].x);
            assert(mobs@[base.len() + j2].x == positions@[used[j2]].x);
            if j1 < j2 {
                assert(used[j1] < used[j2]);
            } else {
                assert(used[j2] < used[j1]);
            }
        }
        if mobs@.len() < base.len() + 3 {
            assert(p == 9);
            assert forall|t: int| 0 <= t < 9 && nibbler_spot_free(base, bl, #[trigger] nibbler_tile(t).0, nibbler_tile(t).1) implies
                exists|k: int| base.len() <= k < mobs@.len() && mobs@[k].x == nibbler_tile(t).0
                    && #[trigger] mobs@[k].y == nibbler_tile(t).1 by {
                assert(tile_covered(positions@, t));
                let u = choose|u: int| 0 <= u < 9 && #[trigger] at_nibbler_tile(positions@[u], t);
                assert(nibbler_spot_free(base, bl, positions@[u].x as int, positions@[u].y as int));
                let j = choose|j: int| 0 <= j < spawned && #[trigger] used[j] == u;
                assert(mobs@[base.len() + j].x == positions@[used[j]].x);
                assert(mobs@[base.len() + j].y == nibbler_tile(t).1);
            }
        }
    }
}


/// Whether a square of side `size` at `(x, y)` is free for a revived monster: no
/// monster blocks it and no obstacle of the arena overlaps it.
pub open spec fn respawn_free(region: Region, mobs: Seq<Mob>, size: int, x: int, y: int) -> bool {
    &&& forall|k: int| 0 <= k < mobs.len() ==> !#[trigger] mob_blocks(mobs, k, x, y, size, None, false)
    &&& !exists|i: int| 0 <= i < region.entities@.len() && #[trigger] collides_spec(x, y, size,
            region.entities@[i].x as int, region.entities@[i].y as int, region.entities@[i].size as int)
}

/// Whether `(x, y)` lies in the block where revived monsters reappear.
pub open spec fn respawn_area(x: int, y: int) -> bool {
    16 <= x < 23 && 11 <= y < 24
}

/// Whether `(x2, y2)` comes before `(x, y)` when the block is scanned column by column.
pub open spec fn scanned_before(x2: int, y2: int, x: int, y: int) -> bool {
    x2 < x || (x2 == x && y2 < y)
}

/// Where a revived monster of side `size` reappears: the first free square of the
/// block `16..23` by `11..24`, scanned column by column, or `(11, 9)` when none is free.
pub fn find_respawn_location(size: i32, region: &Region, mobs: &[Mob]) -> (r: Point)
    requires
        1 <= size, geom_bound(size as int),
        region.wf(),
        mobs_geom_ok(mobs@),
    ensures
        respawn_area(r.x as int, r.y as int) ==> respawn_free(*region, mobs@, size as int, r.x as int, r.y as int)
            && forall|x: int, y: int| respawn_area(x, y) && scanned_before(x, y, r.x as int, r.y as int)
                ==> !#[trigger] respawn_free(*region, mobs@, size as int, x, y),
        !respawn_area(r.x as int, r.y as int) ==> r.x == 11 && r.y == 9
            && forall|x: int, y: int| respawn_area(x, y) ==> !#[trigger] respawn_free(*region, mobs@, size as int, x, y),
{
    proof {
        assert forall|i: int| 0 <= i < region.entities@.len() implies entity_ok(#[trigger] region.entities@[i]) by {
            assert(crate::region::entity_on_grid(region.entities@[i]));
        }
    }
    let mut x: i32 = 16;
    while x < 23
        invariant
            16 <= x <= 23,
            1 <= size, geom_bound(size as int),
            mobs_geom_ok(mobs@),
            forall|i: int| 0 <= i < region.entities@.len() ==> entity_ok(#[trigger] region.entities@[i]),
            forall|x2: int, y2: int| respawn_area(x2, y2) && x2 < x ==> !#[trigger] respawn_free(*region, mobs@, size as int, x2, y2),
        decreases 23 - x,
    {
        let mut y: i32 = 11;
        while y < 24
            invariant
                16 <= x < 23,
                11 <= y <= 24,
                1 <= size, geom_bound(size as int),
                mobs_geom_ok(mobs@),
                forall|i: int| 0 <= i < region.entities@.len() ==> entity_ok(#[trigger] region.entities@[i]),
                forall|x2: int, y2: int| respawn_area(x2, y2) && scanned_before(x2, y2, x as int, y as int)
                    ==> !#[trigger] respawn_free(*region, mobs@, size as int, x2, y2),
            decreases 24 - y,
        {
            if collides_with_mobs(x, y, size, mobs, None, false).is_none()
                && !collides_with_entities(x, y, size, region.entities.as_slice()) {
                return Point { x, y };
            }
            y = y + 1;
        }
        x = x + 1;
    }
    Point { x: 11, y: 9 }
}

/// Spawns whose tiles lie on the board: at most nine, as a spawn code gives them.
pub open spec fn spawns_ok(spawns: Seq<Spawn>) -> bool {
    &&& spawns.len() <= 9
    &&& forall|k: int| 0 <= k < spawns.len() ==> 0 <= (#[trigger] spawns[k]).x < 64 && 0 <= spawns[k].y < 64
}

/// Monsters whose inference numbers never increase along the list.
pub open spec fn sorted_by_inf(mobs: Seq<Mob>) -> bool {
    forall|i: int, j: int| 0 <= i < j < mobs.len() ==> (#[trigger] mobs[i]).inf_num >= (#[trigger] mobs[j]).inf_num
}

/// With no dead monster the dead count is zero.
pub proof fn lemma_dead_total_zero(mobs: Seq<Mob>)
    requires
        forall|i: int| 0 <= i < mobs.len() ==> !(#[trigger] mobs[i]).dead,
    ensures
        dead_total(mobs) == 0,
    decreases mobs.len(),
{
    if mobs.len() > 0 {
        lemma_dead_total_zero(mobs.drop_last());
    }
}

/// Places a new monster among the wave's and returns where: by descending inference
/// number, after those with an equal one, when `by_inf`; else at the end.
fn place_spawned_mob(mobs: &mut Vec<Mob>, mob: Mob, by_inf: bool) -> (p: usize)
    requires
        by_inf ==> sorted_by_inf(old(mobs)@),
    ensures
        p <= old(mobs)@.len(),
        final(mobs)@ == old(mobs)@.insert(p as int, mob),
        !by_inf ==> p == old(mobs)@.len(),
        by_inf ==> sorted_by_inf(final(mobs)@),
{
    if by_inf {
        let mut p: usize = 0;
        while p < mobs.len() && mobs[p].inf_num >= mob.inf_num
            invariant
                p <= mobs@.len(),
                forall|i: int| 0 <= i < p ==> (#[trigger] mobs@[i]).inf_num >= mob.inf_num,
            decreases mobs@.len() - p,
        {
            p = p + 1;
        }
        let ghost before = mobs@;
        mobs.insert(p, mob);
        proof {
            assert forall|i: int, j: int| 0 <= i < j < mobs@.len() implies (#[trigger] mobs@[i]).inf_num >= (#[trigger] mobs@[j]).inf_num by {
                if p < before.len() {
                    assert(before[p as int].inf_num < mob.inf_num);
                }
                if i < p && j > p {
                    assert(before[i].inf_num >= mob.inf_num);
                }
                if i == p && j > p {
                    assert(before[j - 1].inf_num <= before[p as int].inf_num);
                }
            }
        }
        p
    } else {
        let p: usize = mobs.len();
        let ghost before = mobs@;
        mobs.push(mob);
        assert(mobs@ =~= before.insert(p as int, mob));
        p
    }
}

/// The wave's monsters: one fresh monster per occupied spawn, numbered in spawn order
/// and carrying the spawn's inference number, placed by descending inference number
/// (keeping spawn order among equals) when the code gave any.
fn build_spawned_mobs(parsed: &ParsedSpawnCode, loadout: &Loadout) -> (mobs: Vec<Mob>)
    requires
        spawns_ok(parsed.spawns@),
    ensures
        mobs@.len() == spawned_mobs(parsed.spawns@).len(),
        forall|i: int| 0 <= i < mobs@.len() ==> mob_ok(#[trigger] mobs@[i], 0, loadout.max_hit as int)
            && !mobs@[i].dead && mob_geom_ok(mobs@[i]) && mobs@[i].id < mobs@.len(),
        crate::state::ids_distinct(mobs@),
        parsed.has_index_info ==> sorted_by_inf(mobs@),
        forall|i: int| 0 <= i < mobs@.len() ==> {
            let m = #[trigger] mobs@[i];
            let sp = spawned_mobs(parsed.spawns@);
            &&& fresh_mob(Mob { inf_num: 0i32, ..m }, sp[m.id as int].mob_type->Some_0, sp[m.id as int].x,
                sp[m.id as int].y, m.id)
            &&& m.inf_num == sp[m.id as int].inf_num
        },
{
    let mut id_counter: usize = 0;
    let mut mobs: Vec<Mob> = Vec::new();
    let mut k: usize = 0;
    while k < parsed.spawns.len()
        invariant
            k <= parsed.spawns@.len(),
            spawns_ok(parsed.spawns@),
            id_counter <= k,
            mobs@.len() == id_counter,
            id_counter == spawned_mobs(parsed.spawns@.take(k as int)).len(),
            forall|i: int| 0 <= i < mobs@.len() ==> {
                let m = #[trigger] mobs@[i];
                let sp = spawned_mobs(parsed.spawns@.take(k as int));
                &&& fresh_mob(Mob { inf_num: 0i32, ..m }, sp[m.id as int].mob_type->Some_0, sp[m.id as int].x,
                    sp[m.id as int].y, m.id)
                &&& m.inf_num == sp[m.id as int].inf_num
            },
            forall|i: int| 0 <= i < mobs@.len() ==> mob_ok(#[trigger] mobs@[i], 0, loadout.max_hit as int)
                && !mobs@[i].dead && mob_geom_ok(mobs@[i]) && mobs@[i].id < id_counter,
            crate::state::ids_distinct(mobs@),
            parsed.has_index_info ==> sorted_by_inf(mobs@),
        decreases parsed.spawns@.len() - k,
    {
        let spawn: Spawn = parsed.spawns[k];
        let ghost sp0 = spawned_mobs(parsed.spawns@.take(k as int));
        proof {
            crate::spawn::lemma_take_filter(parsed.spawns@, |s: Spawn| holds_mob(s), k as int);
            assert(parsed.spawns@[k as int] == spawn);
        }
        if let Some(mob_type) = spawn.mob_type {
            let mut mob: Mob = hl_create_mob(mob_type, spawn.x, spawn.y, id_counter);
            proof {
                lemma_fresh_mob_ok(mob, mob_type, spawn.x, spawn.y, id_counter, 0, loadout.max_hit as int);
            }
            id_counter = id_counter + 1;
            mob.inf_num = spawn.inf_num;
            assert(mob_ok(mob, 0, loadout.max_hit as int) && !mob.dead && mob_geom_ok(mob) && mob.id < id_counter);
            let ghost before = mobs@;
            let p: usize = place_spawned_mob(&mut mobs, mob, parsed.has_index_info);
            proof {
                assert forall|i: int| 0 <= i < mobs@.len() implies #[trigger] mobs@[i] == mob
                    || (i < p && mobs@[i] == before[i]) || (i > p && mobs@[i] == before[i - 1]) by {
                    if i < p {
                        assert(mobs@[i] == before[i]);
                    } else if i > p {
                        assert(mobs@[i] == before[i - 1]);
                    }
                }
            }
        }
        k = k + 1;
    }
    assert(parsed.spawns@.take(parsed.spawns@.len() as int) =~= parsed.spawns@);
    mobs
}

/// The monsters of a new simulation, the wave's followed by the nibblers, keep the
/// invariant's per-monster bounds and distinct ids, and stay as the wave and the
/// nibblers gave them.
proof fn lemma_initial_mobs(spawned: Seq<Mob>, mobs: Seq<Mob>, max_hit: int, sp: Seq<Spawn>, by_inf: bool)
    requires
        spawned.len() == sp.len(),
        spawned.len() <= mobs.len() <= 12,
        mobs.subrange(0, spawned.len() as int) == spawned,
        forall|i: int| 0 <= i < spawned.len() ==> mob_ok(#[trigger] spawned[i], 0, max_hit)
            && !spawned[i].dead && mob_geom_ok(spawned[i]) && spawned[i].id < spawned.len(),
        crate::state::ids_distinct(spawned),
        by_inf ==> sorted_by_inf(spawned),
        forall|i: int| 0 <= i < spawned.len() ==> {
            let m = #[trigger] spawned[i];
            &&& fresh_mob(Mob { inf_num: 0i32, ..m }, sp[m.id as int].mob_type->Some_0, sp[m.id as int].x,
                sp[m.id as int].y, m.id)
            &&& m.inf_num == sp[m.id as int].inf_num
        },
        forall|k: int| spawned.len() <= k < mobs.len() ==> {
            let m = #[trigger] mobs[k];
            &&& fresh_mob(m, MobType::Nibbler, m.x, m.y, k as usize)
            &&& nibbler_area(m.x as int, m.y as int)
        },
    ensures
        forall|i: int| 0 <= i < mobs.len() ==> mob_ok(#[trigger] mobs[i], 0, max_hit)
            && !mobs[i].dead && mob_geom_ok(mobs[i]) && mobs[i].id < mobs.len(),
        crate::state::ids_distinct(mobs),
        by_inf ==> sorted_by_inf(mobs.subrange(0, sp.len() as int)),
        forall|i: int| 0 <= i < sp.len() ==> {
            let m = #[trigger] mobs[i];
            &&& m.id < sp.len()
            &&& fresh_mob(Mob { inf_num: 0i32, ..m }, sp[m.id as int].mob_type->Some_0, sp[m.id as int].x,
                sp[m.id as int].y, m.id)
            &&& m.inf_num == sp[m.id as int].inf_num
        },
        forall|i: int| sp.len() <= i < mobs.len() ==> (#[trigger] mobs[i]).mob_type == MobType::Nibbler && mobs[i].id == i,
{
    assert forall|i: int| 0 <= i < spawned.len() implies #[trigger] mobs[i] == spawned[i] by {
        assert(mobs[i] == mobs.subrange(0, spawned.len() as int)[i]);
    }
    assert forall|i: int| 0 <= i < mobs.len() implies mob_ok(#[trigger] mobs[i], 0, max_hit)
        && !mobs[i].dead && mob_geom_ok(mobs[i]) && mobs[i].id < mobs.len() by {
        if i >= spawned.len() {
            let m = mobs[i];
            assert(nibbler_area(m.x as int, m.y as int));
            lemma_fresh_mob_ok(m, MobType::Nibbler, m.x, m.y, i as usize, 0, max_hit);
        }
    }
    assert forall|i: int, j: int| 0 <= i < mobs.len() && 0 <= j < mobs.len() && i != j
        implies (#[trigger] mobs[i]).id != (#[trigger] mobs[j]).id by {
        if i < spawned.len() {
            assert(mobs[i] == spawned[i]);
        }
        if j < spawned.len() {
            assert(mobs[j] == spawned[j]);
        }
    }
}

/// Whether `r` is the initial state of a simulation of `parsed` with the player at
/// `player_pos`, on `region` with `loadout` and the pillars of `pillar_config`,
/// taking over the log `log`: the generator is seeded with `seed` and, when no pillar
/// stands, advanced past the eight draws that place the nibblers.
pub open spec fn initial_state_ok(parsed: ParsedSpawnCode, player_pos: Point, pillar_config: PillarConfig, loadout: &Loadout,
    region: &Region, seed: u32, log: Seq<AttackEvent>, r: State<'_>) -> bool {
    let sp = spawned_mobs(parsed.spawns@);
    let no_pillar = !pillar_config.s && !pillar_config.w && !pillar_config.n;
    &&& r.rng.s == (if no_pillar { generator_after(seed, 8) } else { seed })
    &&& !no_pillar ==> r.mobs@.len() == sp.len()
    &&& r.tick == 0
    &&& r.region == region
    &&& r.loadout == loadout
    &&& r.player.x == player_pos.x && r.player.y == player_pos.y
    &&& r.player.aggro is None
    &&& r.attacks@ == log
    &&& r.dead_count == 0
    &&& r.mobs@.len() <= parsed.spawns@.len() + 3
    &&& sp.len() <= r.mobs@.len()
    &&& parsed.has_index_info ==> sorted_by_inf(r.mobs@.subrange(0, sp.len() as int))
    &&& forall|i: int| 0 <= i < sp.len() ==> {
        let m = #[trigger] r.mobs@[i];
        &&& m.id < sp.len()
        &&& fresh_mob(Mob { inf_num: 0i32, ..m }, sp[m.id as int].mob_type->Some_0, sp[m.id as int].x,
            sp[m.id as int].y, m.id)
        &&& m.inf_num == sp[m.id as int].inf_num
    }
    &&& forall|i: int| sp.len() <= i < r.mobs@.len() ==> (#[trigger] r.mobs@[i]).mob_type == MobType::Nibbler
        && r.mobs@[i].id == i
}

/// The initial state of a simulation: one fresh monster per occupied spawn (ids in
/// spawn order, carrying the spawn's inference number), ordered by descending inference
/// number (keeping spawn order among equals) when the code gave any; up to three
/// nibblers when no pillar stands; the player at `player_pos`; the generator seeded with
/// `seed`; and the attack log taken over.
#[verifier::rlimit(60)]
#[verifier::spinoff_prover]
pub fn hl_init_state<'a>(
    parsed: &ParsedSpawnCode,
    player_pos: Point,
    pillar_config: PillarConfig,
    loadout: &'a Loadout,
    region: &'a Region,
    seed: u32,
    attack_log: Vec<AttackEvent>,
) -> (r: State<'a>)
    requires
        region.wf(),
        sim_loadout_ok(*loadout),
        0 <= player_pos.x < 64 && 0 <= player_pos.y < 64,
        spawns_ok(parsed.spawns@),
        crate::damage::attacks_ok(attack_log@),
    ensures
        r.wf(),
        r.tick == 0,
        r.region == region,
        r.loadout == loadout,
        r.player.x == player_pos.x && r.player.y == player_pos.y,
        r.player.aggro is None,
        r.attacks@ == attack_log@,
        r.dead_count == 0,
        r.mobs@.len() <= parsed.spawns@.len() + 3,
        ({
            let sp = spawned_mobs(parsed.spawns@);
            &&& sp.len() <= r.mobs@.len()
            &&& parsed.has_index_info ==> sorted_by_inf(r.mobs@.subrange(0, sp.len() as int))
            &&& forall|i: int| 0 <= i < sp.len() ==> {
                let m = #[trigger] r.mobs@[i];
                &&& m.id < sp.len()
                &&& fresh_mob(Mob { inf_num: 0i32, ..m }, sp[m.id as int].mob_type->Some_0, sp[m.id as int].x,
                    sp[m.id as int].y, m.id)
                &&& m.inf_num == sp[m.id as int].inf_num
            }
            &&& forall|i: int| sp.len() <= i < r.mobs@.len() ==> (#[trigger] r.mobs@[i]).mob_type == MobType::Nibbler
                && r.mobs@[i].id == i
        }),
        initial_state_ok(*parsed, player_pos, pillar_config, loadout, region, seed, attack_log@, r),
{
    let mut rng: Mulberry32 = Mulberry32::new(seed);
    let mut mobs: Vec<Mob> = build_spawned_mobs(parsed, loadout);
    let mut id_counter: usize = mobs.len();
    let ghost spawned = mobs@;
    assert(mobs_geom_ok(mobs@));
    if !pillar_config.s && !pillar_config.w && !pillar_config.n {
        spawn_nibblers(&mut mobs, region, &mut rng, &mut id_counter);
    }
    assert(mobs@.subrange(0, spawned.len() as int) =~= spawned);
    proof {
        lemma_initial_mobs(spawned, mobs@, loadout.max_hit as int, spawned_mobs(parsed.spawns@), parsed.has_index_info);
    }
    let mut mob_init_hp: [Option<MobInit>; 64] = [None; 64];
    let mut mob_init_len: usize = 0;
    let mut i: usize = 0;
    while i < mobs.len()
        invariant
            i <= mobs@.len(),
            mob_init_len <= MAX_MOB_IDS,
        decreases mobs@.len() - i,
    {
        set_mob_init(&mut mob_init_hp, &mut mob_init_len, mobs[i].id, mobs[i].hp);
        i = i + 1;
    }
    let mut id_to_idx: [Option<usize>; 64] = [None; 64];
    let mut idx: usize = 0;
    while idx < mobs.len()
        invariant
            idx <= mobs@.len(),
            ids_ok(id_to_idx@, mobs@),
        decreases mobs@.len() - idx,
    {
        set_id_to_idx(&mut id_to_idx, mobs[idx].id, idx);
        idx = idx + 1;
    }
    let mut mob_occupancy: [u64; 870] = [0u64; 870];
    rebuild_mob_occupancy(mobs.as_slice(), &mut mob_occupancy);
    proof {
        lemma_dead_total_zero(mobs@);
        reveal(State::wf);
    }
    State {
        region,
        mobs,
        mob_occupancy,
        id_to_idx,
        player: hl_create_player(player_pos.x, player_pos.y, loadout),
        tick: 0,
        dead_count: 0,
        dead_mobs: Vec::new(),
        dead_mob_cursor: 0,
        id_counter,
        loadout,
        attacks: attack_log,
        mob_init_hp,
        mob_init_len,
        delayed_bloblet_spawns: Vec::new(),
        rng,
    }
}

} // verus!
