use autozuk_wasm::constants::DAMAGE_BUCKETS;
use autozuk_wasm::scoring::{damage_bucket, prayer_slot};
use autozuk_wasm::spawn::parse_spawn_code;

#[test]
fn spawn_code_fills_missing_inference_numbers_in_order() {
    let parsed = parse_spawn_code("M1RX").unwrap();
    let inf_numbers: Vec<i32> = parsed
        .spawns
        .iter()
        .filter(|spawn| spawn.mob_type.is_some())
        .map(|spawn| spawn.inf_num)
        .collect();

    assert!(parsed.has_index_info);
    assert_eq!(inf_numbers, vec![1, 3, 2]);
}

#[test]
fn scoring_helpers_keep_bucket_and_slot_boundaries_stable() {
    assert_eq!(prayer_slot(0), 0);
    assert_eq!(prayer_slot(5), 1);
    assert_eq!(damage_bucket(0, 100), 0);
    assert_eq!(damage_bucket(1000, 100), DAMAGE_BUCKETS - 1);
}
