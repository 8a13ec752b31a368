use acvm::{FieldValue, WitnessStore};

#[test]
fn get_after_set() {
    let mut store = WitnessStore::new();
    assert_eq!(store.len(), 0);
    assert!(store.get(0).is_none());
    assert!(store.set(0, FieldValue::from_u64(5)));
    assert_eq!(store.get(0), Some(FieldValue::from_u64(5)));
    assert!(store.contains(0));
    assert!(!store.contains(1));
    assert_eq!(store.len(), 1);
}

#[test]
fn reset_equal_value_is_noop() {
    let mut store = WitnessStore::new();
    assert!(store.set(7, FieldValue::from_u64(9)));
    assert!(store.set(7, FieldValue::from_u64(9)));
    assert_eq!(store.len(), 1);
    assert_eq!(store.get(7), Some(FieldValue::from_u64(9)));
}

#[test]
fn reset_different_value_is_conflict() {
    let mut store = WitnessStore::new();
    assert!(store.set(7, FieldValue::from_u64(9)));
    assert!(!store.set(7, FieldValue::from_u64(10)));
    // the conflicting write left the store unchanged
    assert_eq!(store.get(7), Some(FieldValue::from_u64(9)));
    assert_eq!(store.len(), 1);
}

#[test]
fn keys_only_grow() {
    let mut store = WitnessStore::new();
    assert!(store.set(1, FieldValue::from_u64(11)));
    assert!(store.set(2, FieldValue::from_u64(22)));
    assert!(store.set(3, FieldValue::from_u64(33)));
    assert!(!store.set(2, FieldValue::from_u64(99)));
    assert_eq!(store.len(), 3);
    assert_eq!(store.get(1), Some(FieldValue::from_u64(11)));
    assert_eq!(store.get(2), Some(FieldValue::from_u64(22)));
    assert_eq!(store.get(3), Some(FieldValue::from_u64(33)));
}
