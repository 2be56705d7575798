use std::cmp::Ordering;

use autozuk_wasm::damage::calc_sim_damage;
use autozuk_wasm::events::{AttackEvent, MobInit, EVENT_NONE_I16, EVENT_NONE_ID};
use autozuk_wasm::queue::DamageResult;

use autozuk_wasm::batch::{configure_sim_context, simulate_tiles_cached_inner, simulate_tiles_top_cached_inner};
use autozuk_wasm::loadout::{build_loadout, loadout_blood_heal, AttackStats, Loadout, LoadoutFields, MonsterAttackTable};
use autozuk_wasm::ranking::{compare_tile_summary, insert_ranked_tile_summary, RankedTileSummary};
use autozuk_wasm::region::{create_region, pillar_cache_key, with_cached_region, RegionCache};
use autozuk_wasm::mechanics::key;
use autozuk_wasm::rng::Mulberry32;
use autozuk_wasm::sight::{osrs_walk_step, player_bfs};
use autozuk_wasm::setup::hl_create_mob;
use autozuk_wasm::spawn::{is_empty_wave, parse_spawn_code, parse_normalized_spawn_code};
use autozuk_wasm::summary::{
    simulate_tile_summary_typed, summarize_empty_wave_typed, tile_seed, Average, Percent, TileSimParams, TileSummary,
};
use autozuk_wasm::tiles::{build_test_mobs, check_tile_excluded, exclude_tiles};
use autozuk_wasm::types::{MobType, PillarConfig, Point, Prayer};

fn fields() -> LoadoutFields {
    LoadoutFields {
        atk_speed: 3,
        max_hit: 39,
        range: 8,
        starting_hp: None,
        has_recoil: None,
        has_ring_recoil: None,
        has_echo_boots: None,
        is_blood_barrage: None,
        has_blood_sceptre: None,
        player_acc: [[2_147_483_648u64; 2]; 9],
        monster_atk: MonsterAttackTable {
            normal: [Some(AttackStats { max: 10, acc: 1_000_000 }); 9],
            melee: [None; 9],
            blob_mage: None,
            blob_range: None,
            blob_melee: None,
        },
    }
}

fn plain_loadout() -> Loadout {
    build_loadout(&fields())
}

fn summary(sum: i64, count: u64, ticks: i64) -> TileSummary {
    let mut s = summarize_empty_wave_typed(1);
    s.avg_damage = Average { sum, count, fallback: 999 };
    s.avg_ticks = Average { sum: ticks, count, fallback: 0 };
    s
}

fn ranked(x: i32, y: i32, sum: i64, count: u64, ticks: i64) -> RankedTileSummary {
    RankedTileSummary { tile: Point { x, y }, summary: summary(sum, count, ticks) }
}

#[test]
fn spawn_code_is_trimmed_and_upper_cased() {
    let a = parse_spawn_code("  m1rx \n").unwrap();
    let b = parse_spawn_code("M1RX").unwrap();
    assert_eq!(a.spawns, b.spawns);
    assert_eq!(a.has_index_info, b.has_index_info);
}

#[test]
fn spawn_code_errors_name_the_problem() {
    assert_eq!(parse_spawn_code("   ").unwrap_err(), "Enter a spawn code");
    assert_eq!(parse_spawn_code("MQ").unwrap_err(), "Unknown 'Q' at pos 2");
    assert_eq!(parse_spawn_code("m1z").unwrap_err(), "Unknown 'Z' at pos 3");
}

#[test]
fn spawn_code_places_positions_and_stops_after_nine() {
    let parsed = parse_spawn_code("MOOOOOOOOR").unwrap();
    assert_eq!(parsed.spawns.len(), 9);
    assert_eq!(parsed.spawns[0].mob_type, Some(MobType::Mager));
    assert_eq!((parsed.spawns[0].x, parsed.spawns[0].y), (2, 6));
    assert_eq!((parsed.spawns[8].x, parsed.spawns[8].y), (16, 29));
    assert!(!parsed.has_index_info);
    assert!(parsed.spawns.iter().all(|s| s.inf_num == 0));
}

#[test]
fn empty_wave_needs_a_pillar() {
    let parsed = parse_spawn_code("OOO").unwrap();
    assert!(!is_empty_wave(&parsed, PillarConfig { s: false, w: false, n: false }));
    assert!(is_empty_wave(&parsed, PillarConfig { s: true, w: false, n: false }));
    let busy = parse_spawn_code("OMO").unwrap();
    assert!(!is_empty_wave(&busy, PillarConfig { s: true, w: true, n: true }));
}

#[test]
fn mulberry_draws_match_the_reference_sequence() {
    let mut a = Mulberry32::new(42);
    assert_eq!(a.next_u32(), 2_581_720_956);
    assert_eq!(a.next_u32(), 1_925_393_290);
    assert_eq!(a.next_u32(), 3_661_312_704);
    let mut b = Mulberry32::new(42);
    let mut c = Mulberry32::new(42);
    for _ in 0..100 {
        assert_eq!(b.next_u32(), c.next_u32());
    }
}

#[test]
fn loadout_defaults_and_clamps() {
    let l = plain_loadout();
    assert_eq!(l.starting_hp, 99);
    assert!(!l.has_recoil && !l.has_ring_recoil && !l.has_echo_boots);
    assert!(!l.is_blood_barrage && !l.has_blood_sceptre);

    let mut f = fields();
    f.starting_hp = Some(500);
    f.has_recoil = Some(true);
    f.has_echo_boots = Some(false);
    let l = build_loadout(&f);
    assert_eq!(l.starting_hp, 115);
    assert!(l.has_recoil && l.has_ring_recoil && !l.has_echo_boots);

    f.starting_hp = Some(-3);
    f.has_recoil = Some(false);
    let l = build_loadout(&f);
    assert_eq!(l.starting_hp, 1);
    assert!(!l.has_ring_recoil);
}

#[test]
fn loadout_resolves_melee_and_blob_attacks() {
    let mut f = fields();
    f.monster_atk.melee[MobType::Ranger.idx()] = Some(AttackStats { max: 19, acc: 5 });
    f.monster_atk.blob_range = Some(AttackStats { max: 29, acc: 7 });
    let l = build_loadout(&f);
    let ranger = l.monster_atk_fast[MobType::Ranger.idx()];
    assert_eq!(ranger[0], Some(AttackStats { max: 10, acc: 1_000_000 }));
    assert_eq!(ranger[2], Some(AttackStats { max: 19, acc: 5 }));
    let blob = l.monster_atk_fast[MobType::Blob.idx()];
    assert_eq!(blob[0], None);
    assert_eq!(blob[1], Some(AttackStats { max: 29, acc: 7 }));
    assert_eq!(blob[2], Some(AttackStats { max: 29, acc: 7 }));
}

#[test]
fn blood_heal_rounds_down() {
    let mut f = fields();
    let l = build_loadout(&f);
    assert_eq!(loadout_blood_heal(&l, 40), 10);
    assert_eq!(loadout_blood_heal(&l, 3), 0);
    f.has_blood_sceptre = Some(true);
    let l = build_loadout(&f);
    assert_eq!(loadout_blood_heal(&l, 40), 11);
    assert_eq!(loadout_blood_heal(&l, 7), 1);
}

#[test]
fn pillar_layouts_get_distinct_cache_keys() {
    let mut keys = Vec::new();
    for s in [false, true] {
        for w in [false, true] {
            for n in [false, true] {
                keys.push(pillar_cache_key(PillarConfig { s, w, n }));
            }
        }
    }
    let mut sorted = keys.clone();
    sorted.sort();
    sorted.dedup();
    assert_eq!(sorted.len(), 8);
    assert!(keys.iter().all(|k| *k < 8));
}

#[test]
fn region_cache_reuses_the_arena() {
    let mut cache = RegionCache::new();
    let p = PillarConfig { s: true, w: false, n: true };
    let first = with_cached_region(&mut cache, p, |r| r.pillars.clone());
    let second = with_cached_region(&mut cache, p, |r| r.pillars.clone());
    assert_eq!(first, second);
    assert_eq!(cache.entries.len(), 1);
    with_cached_region(&mut cache, PillarConfig { s: false, w: false, n: false }, |r| r.pillars.len());
    assert_eq!(cache.entries.len(), 2);
}

#[test]
fn ranking_orders_by_damage_then_ticks_then_tile() {
    let a = ranked(5, 5, 100, 10, 50);
    let b = ranked(1, 1, 200, 10, 10);
    assert_eq!(compare_tile_summary(a.tile, &a.summary, b.tile, &b.summary), Ordering::Less);
    assert_eq!(compare_tile_summary(b.tile, &b.summary, a.tile, &a.summary), Ordering::Greater);
    let c = ranked(1, 9, 20, 2, 5);
    assert_eq!(compare_tile_summary(a.tile, &a.summary, c.tile, &c.summary), Ordering::Greater);
    let d = ranked(5, 6, 100, 10, 50);
    assert_eq!(compare_tile_summary(a.tile, &a.summary, d.tile, &d.summary), Ordering::Less);
    assert_eq!(compare_tile_summary(a.tile, &a.summary, a.tile, &a.summary), Ordering::Equal);
}

#[test]
fn ranking_insert_keeps_best_in_order_within_limit() {
    let mut top = Vec::new();
    insert_ranked_tile_summary(&mut top, 3, ranked(1, 1, 50, 1, 1));
    insert_ranked_tile_summary(&mut top, 3, ranked(2, 2, 10, 1, 1));
    insert_ranked_tile_summary(&mut top, 3, ranked(3, 3, 30, 1, 1));
    insert_ranked_tile_summary(&mut top, 3, ranked(4, 4, 20, 1, 1));
    insert_ranked_tile_summary(&mut top, 3, ranked(5, 5, 90, 1, 1));
    let tiles: Vec<(i32, i32)> = top.iter().map(|t| (t.tile.x, t.tile.y)).collect();
    assert_eq!(tiles, vec![(2, 2), (4, 4), (3, 3)]);
    let mut none = Vec::new();
    insert_ranked_tile_summary(&mut none, 0, ranked(1, 1, 1, 1, 1));
    assert!(none.is_empty());
}

#[test]
fn ranking_equal_tiles_keep_arrival_order() {
    let mut top = Vec::new();
    let first = ranked(3, 3, 10, 1, 1);
    insert_ranked_tile_summary(&mut top, 4, first);
    insert_ranked_tile_summary(&mut top, 4, first);
    insert_ranked_tile_summary(&mut top, 4, ranked(1, 1, 10, 1, 1));
    assert_eq!(top.len(), 3);
    assert_eq!(top[0].tile, Point { x: 1, y: 1 });
    assert_eq!(top[1].tile, Point { x: 3, y: 3 });
}

#[test]
fn empty_wave_summary_values() {
    let s = summarize_empty_wave_typed(7);
    assert_eq!(s.avg_damage, Average { sum: 0, count: 7, fallback: 0 });
    assert_eq!(s.damage_buckets[0], 7);
    assert_eq!(s.damage_buckets[1..].iter().sum::<usize>(), 0);
    assert_eq!(s.over50_pct, Percent { part: 0, count: 7, fallback: Some(0) });
    assert_eq!(s.avg_ticks, Average { sum: 7, count: 7, fallback: 1 });
    assert_eq!(s.prayer, [Prayer::Mage; 4]);
    assert_eq!(s.total_sims, 7);
}

#[test]
fn tiles_under_monsters_or_pillars_are_excluded() {
    let region = create_region(PillarConfig { s: true, w: true, n: true });
    let parsed = parse_spawn_code("M").unwrap();
    let mobs = build_test_mobs(&parsed);
    assert_eq!(mobs.len(), 1);
    assert_eq!(mobs[0].size, 4);
    assert!(check_tile_excluded(3, 5, &mobs, &region));
    let pillar = region.pillars[0];
    assert!(check_tile_excluded(pillar.x, pillar.y, &mobs, &region));
    let (excluded, eligible) = exclude_tiles(&[Point { x: 3, y: 5 }, Point { x: 28, y: 29 }], &mobs, &region);
    assert_eq!(excluded, vec![Point { x: 3, y: 5 }]);
    assert_eq!(eligible, vec![Point { x: 28, y: 29 }]);
}

#[test]
fn tiles_seen_by_two_big_kinds_are_excluded() {
    let region = create_region(PillarConfig { s: false, w: false, n: false });
    let mobs = vec![hl_create_mob(MobType::Mager, 2, 6, 0), hl_create_mob(MobType::Ranger, 23, 6, 1)];
    let one = vec![hl_create_mob(MobType::Mager, 2, 6, 0)];
    assert!(check_tile_excluded(15, 15, &mobs, &region));
    assert!(!check_tile_excluded(15, 15, &one, &region));
}

#[test]
fn batches_refuse_odd_buffers() {
    let region = create_region(PillarConfig { s: false, w: false, n: false });
    let mut ctx = configure_sim_context("MO", PillarConfig { s: false, w: false, n: false }, plain_loadout(), 50, 1)
        .unwrap();
    let err = simulate_tiles_cached_inner(&mut ctx, &region, &[1, 2, 3], 1, true).unwrap_err();
    assert_eq!(err, "tile coordinate buffer must contain x,y pairs");
    let err = simulate_tiles_top_cached_inner(&mut ctx, &region, &[1], 1, true, 4).unwrap_err();
    assert_eq!(err, "tile coordinate buffer must contain x,y pairs");
}

#[test]
fn configure_reports_spawn_code_errors() {
    let r = configure_sim_context("", PillarConfig { s: false, w: false, n: false }, plain_loadout(), 50, 1);
    assert_eq!(r.err().unwrap(), "Enter a spawn code");
}

#[test]
fn batches_without_simulations_give_no_summaries() {
    let region = create_region(PillarConfig { s: false, w: false, n: false });
    let mut ctx = configure_sim_context("MO", PillarConfig { s: false, w: false, n: false }, plain_loadout(), 50, 1)
        .unwrap();
    let out = simulate_tiles_cached_inner(&mut ctx, &region, &[10, 10, 12, 14], -5, true).unwrap();
    assert_eq!(out.len(), 2);
    assert_eq!(out[1].tile, Point { x: 12, y: 14 });
    assert!(out.iter().all(|r| r.summary.is_none()));
    let top = simulate_tiles_top_cached_inner(&mut ctx, &region, &[10, 10, 12, 14], 0, true, 5).unwrap();
    assert!(top.is_empty());
}

#[test]
fn empty_wave_batches_rank_every_tile() {
    let pillars = PillarConfig { s: true, w: false, n: false };
    let region = create_region(pillars);
    let mut ctx = configure_sim_context("OOO", pillars, plain_loadout(), 50, 1).unwrap();
    let top = simulate_tiles_top_cached_inner(&mut ctx, &region, &[9, 9, 8, 8, 7, 7], 3, true, 2).unwrap();
    assert_eq!(top.len(), 2);
    assert_eq!(top[0].tile, Point { x: 7, y: 7 });
    assert_eq!(top[1].tile, Point { x: 8, y: 8 });
    assert_eq!(top[0].summary.total_sims, 3);
}

#[test]
fn tile_seed_mixes_tile_and_run() {
    assert_eq!(tile_seed(42, Point { x: 15, y: 15 }, 7), 1_905_354_249);
    assert_eq!(tile_seed(0, Point { x: 0, y: 0 }, 0), 0);
    assert_eq!(tile_seed(5, Point { x: 1, y: 0 }, 0), 5 ^ 73_856_093);
}

#[test]
fn without_pruning_every_simulation_runs() {
    let pillars = PillarConfig { s: false, w: false, n: false };
    let region = create_region(pillars);
    let parsed = parse_spawn_code("MR").unwrap();
    let loadout = plain_loadout();
    let summary = simulate_tile_summary_typed(TileSimParams {
        parsed: &parsed,
        pillar_config: pillars,
        tile: Point { x: 15, y: 20 },
        loadout: &loadout,
        max_ticks: 30,
        max_sims: 4,
        seed_base: 9,
        region: &region,
        quick_prune: false,
    })
    .unwrap()
    .unwrap();
    assert_eq!(summary.total_sims, 4);
    assert_eq!(summary.invalid_pct.count, 4);
    assert_eq!(summary.invalid_pct.part + summary.avg_damage.count, 4);
}

fn bat_hit(tick: i32) -> AttackEvent {
    AttackEvent {
        tick,
        mob_id: 0,
        target_mob_id: EVENT_NONE_ID,
        mob_type: MobType::Bat.idx() as u8,
        style: 1,
        is_scan: false,
        scan_tick: -1,
        acc_roll: 10,
        dmg_roll: 1_952_257_862,
        dist_at_fire: 5,
        hit_tick: (tick + 1) as i16,
        is_player_attack: false,
        player_dmg: 0,
        is_revive: false,
        revive_hp: EVENT_NONE_I16,
    }
}

#[test]
fn ring_recoil_kills_a_weak_monster_and_stops_its_hits() {
    let log = [bat_hit(1), bat_hit(10), bat_hit(20)];
    let prayers = [Prayer::Mage; 4];
    let plain = plain_loadout();
    let mut f = fields();
    f.has_recoil = Some(true);
    let recoil = build_loadout(&f);
    let init = [Some(MobInit { hp: 1 })];
    assert_eq!(calc_sim_damage(&log, &prayers, &plain, &init), DamageResult { damage: 15, died: false });
    assert_eq!(calc_sim_damage(&log, &prayers, &recoil, &init), DamageResult { damage: 5, died: false });
    assert_eq!(calc_sim_damage(&log, &prayers, &recoil, &[]), DamageResult { damage: 15, died: false });
    let tough = [Some(MobInit { hp: 50 })];
    assert_eq!(calc_sim_damage(&log, &prayers, &recoil, &tough), DamageResult { damage: 15, died: false });
}

#[test]
fn protection_prayer_blocks_the_matching_style() {
    let log = [bat_hit(1), bat_hit(10)];
    let plain = plain_loadout();
    assert_eq!(calc_sim_damage(&log, &[Prayer::Range; 4], &plain, &[]), DamageResult { damage: 0, died: false });
    assert_eq!(calc_sim_damage(&log, &[Prayer::Melee; 4], &plain, &[]), DamageResult { damage: 10, died: false });
}

#[test]
fn path_step_goes_around_a_pillar_corner() {
    let region = create_region(PillarConfig { s: false, w: false, n: true });
    // The diagonal to (18, 9) would cut the pillar's corner at (18, 8).
    assert_eq!(region.path_next_step(17, 8, 18, 9), Some(Point { x: 17, y: 9 }));
    assert_eq!(player_bfs(17, 8, 18, 9, &region), Some(Point { x: 17, y: 9 }));
    assert_eq!(region.path_next_step(5, 5, 5, 5), None);
}

#[test]
fn blocked_tiles_hold_one() {
    let region = create_region(PillarConfig { s: true, w: true, n: true });
    assert_eq!(region.blocked[key(0, 0)], 1);
    assert_eq!(region.blocked[key(30, 12)], 1);
    assert_eq!(region.blocked[key(19, 7)], 1);
    assert_eq!(region.blocked[key(12, 23)], 1);
    assert_eq!(region.blocked[key(2, 9)], 1);
    assert_eq!(region.blocked[key(5, 5)], 0);
    assert!(region.blocked.iter().all(|b| *b <= 1));
}

#[test]
fn walk_step_reaches_far_tiles() {
    let region = create_region(PillarConfig { s: true, w: true, n: true });
    let step = osrs_walk_step(2, 2, 28, 29, &region).unwrap();
    assert!((step.x - 2).abs() <= 1 && (step.y - 2).abs() <= 1);
    assert_eq!(osrs_walk_step(4, 4, 4, 4, &region), None);
}

#[test]
fn region_cache_keeps_earlier_arenas() {
    let mut cache = RegionCache::new();
    let a = PillarConfig { s: true, w: false, n: false };
    let b = PillarConfig { s: false, w: true, n: false };
    with_cached_region(&mut cache, a, |r| r.pillars.len());
    let first = cache.entries[0].0;
    with_cached_region(&mut cache, b, |r| r.pillars.len());
    assert_eq!(cache.entries.len(), 2);
    assert_eq!(cache.entries[0].0, first);
    assert_eq!(cache.entries[1].0, pillar_cache_key(b));
}

#[test]
fn normalized_code_reads_its_positions() {
    let chars: Vec<char> = "M1RX".chars().collect();
    let parsed = parse_normalized_spawn_code(&chars).unwrap();
    let inf_numbers: Vec<i32> = parsed.spawns.iter().filter(|s| s.mob_type.is_some()).map(|s| s.inf_num).collect();
    assert!(parsed.has_index_info);
    assert_eq!(inf_numbers, vec![1, 3, 2]);
    let lower: Vec<char> = "m1".chars().collect();
    assert_eq!(parse_normalized_spawn_code(&lower).unwrap_err(), "Unknown 'm' at pos 1");
}
