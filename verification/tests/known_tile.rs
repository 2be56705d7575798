use autozuk_wasm::loadout::{build_loadout, AttackStats, Loadout, LoadoutFields, MonsterAttackTable};
use autozuk_wasm::region::create_region;
use autozuk_wasm::spawn::parse_spawn_code;
use autozuk_wasm::summary::{simulate_tile_summary_typed, TileSimParams};
use autozuk_wasm::types::{MobType, PillarConfig, Point, Prayer};

fn threshold(p: f64) -> u64 {
    let t = (p * 4_294_967_296.0).ceil();
    if t <= 0.0 {
        0
    } else if t >= 4_294_967_296.0 {
        4_294_967_296
    } else {
        t as u64
    }
}

fn stats(max: i32, acc: f64) -> Option<AttackStats> {
    Some(AttackStats { max, acc: threshold(acc) })
}

fn ayak_loadout() -> Loadout {
    let mut player_acc = [[0u64; 2]; 9];
    let acc: [(MobType, f64, f64); 9] = [
        (MobType::Nibbler, 0.9720, 0.9990),
        (MobType::Bat, 0.8500, 0.9700),
        (MobType::Blob, 0.6025, 0.7894),
        (MobType::BlobletMelee, 0.9830, 0.9996),
        (MobType::BlobletMage, 0.6966, 0.8773),
        (MobType::BlobletRange, 0.9830, 0.9996),
        (MobType::Meleer, 0.6796, 0.8631),
        (MobType::Ranger, 0.8325, 0.9626),
        (MobType::Mager, 0.4784, 0.6379),
    ];
    for (t, a, b) in acc {
        player_acc[t.idx()] = [threshold(a), threshold(b)];
    }
    let mut monster_atk = MonsterAttackTable {
        normal: [None; 9],
        melee: [None; 9],
        blob_mage: stats(29, 0.6188),
        blob_range: stats(29, 0.1281),
        blob_melee: stats(29, 0.0756),
    };
    monster_atk.normal[MobType::Nibbler.idx()] = stats(4, 1.0);
    monster_atk.normal[MobType::Bat.idx()] = stats(19, 0.0843);
    monster_atk.normal[MobType::BlobletMelee.idx()] = stats(18, 0.0577);
    monster_atk.normal[MobType::BlobletMage.idx()] = stats(18, 0.4088);
    monster_atk.normal[MobType::BlobletRange.idx()] = stats(18, 0.0799);
    monster_atk.normal[MobType::Meleer.idx()] = stats(49, 0.1530);
    monster_atk.normal[MobType::Ranger.idx()] = stats(46, 0.1873);
    monster_atk.melee[MobType::Ranger.idx()] = stats(19, 0.0666);
    monster_atk.normal[MobType::Mager.idx()] = stats(70, 0.8422);
    monster_atk.melee[MobType::Mager.idx()] = stats(52, 0.1745);
    build_loadout(&LoadoutFields {
        atk_speed: 3,
        max_hit: 39,
        range: 8,
        starting_hp: Some(99),
        has_recoil: Some(true),
        has_ring_recoil: Some(true),
        has_echo_boots: Some(true),
        is_blood_barrage: None,
        has_blood_sceptre: None,
        player_acc,
        monster_atk,
    })
}

#[test]
fn simulates_known_tile_like_js_worker() {
    let pillars = PillarConfig { s: true, w: true, n: true };
    let region = create_region(pillars);
    let parsed = parse_spawn_code("MRYBXOOOO").unwrap();
    let loadout = ayak_loadout();
    let summary = simulate_tile_summary_typed(TileSimParams {
        parsed: &parsed,
        pillar_config: pillars,
        tile: Point { x: 15, y: 15 },
        loadout: &loadout,
        max_ticks: 400,
        max_sims: 20,
        seed_base: 42,
        region: &region,
        quick_prune: true,
    })
    .unwrap()
    .unwrap();
    assert_eq!(summary.total_sims, 10);
    assert_eq!(summary.prayer, [Prayer::Mage, Prayer::Mage, Prayer::Mage, Prayer::Range]);
    let avg = summary.avg_damage.sum as f64 / summary.avg_damage.count as f64;
    assert!((avg - 90.5).abs() < f64::EPSILON);
}
