use rust_game_common::model::item::durability_item::durability_sort_key;
use rust_game_common::model::item::durability_item::ItemError as DurableItemError;
use rust_game_common::model::item::simple_item::ItemError;
use rust_game_common::model::status::StatusError;

#[test]
fn error_variants_compare_by_variant() {
    assert_eq!(ItemError::InsufficientAmountToSplit, ItemError::InsufficientAmountToSplit);
    assert_ne!(ItemError::InsufficientAmountToSplit, ItemError::InsufficientTotalAmount);
    assert_ne!(DurableItemError::InsufficientAmountToSplit, DurableItemError::InsufficientTotalAmount);
    assert_ne!(StatusError::MinLimitReached, StatusError::MaxLimitReached);
}

#[test]
fn durability_sort_key_follows_numeric_order() {
    let key = |v: f32| durability_sort_key(v.to_bits()).unwrap();
    let values = [f32::NEG_INFINITY, -100.0, -0.5, 0.0, 1.0e-40, 30.0, 75.0, 100.0, f32::INFINITY];
    for w in values.windows(2) {
        assert!(key(w[0]) < key(w[1]));
    }
    assert_eq!(key(-0.0), key(0.0));
    assert_eq!(durability_sort_key(f32::NAN.to_bits()), None);
}
