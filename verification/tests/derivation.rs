use storage_vec::backend::Storage;
use storage_vec::keys::{element_key, scalar_key};
use storage_vec::vector::StorageVec;

#[test]
fn derived_keys_are_little_endian_pairs() {
    assert_eq!(scalar_key(123), vec![123, 0, 0, 0]);
    assert_eq!(scalar_key(0x0403_0201), vec![1, 2, 3, 4]);
    assert_eq!(element_key(123, 0), vec![123, 0, 0, 0, 0, 0, 0, 0]);
    assert_eq!(element_key(0x0403_0201, 0x0807_0605), vec![1, 2, 3, 4, 5, 6, 7, 8]);
}

#[test]
fn derived_keys_do_not_collide() {
    // Distinct indices under one root, distinct roots, and the length cell
    // all land on distinct backend keys.
    assert_ne!(element_key(5, 0), element_key(5, 1));
    assert_ne!(element_key(5, 0), element_key(6, 0));
    assert_ne!(element_key(5, 0), scalar_key(5));
    assert_ne!(scalar_key(5), scalar_key(6));
}

#[test]
fn derivation_is_stable_across_handles() {
    // The derivation depends on root and index alone: a handle constructed
    // later, or twice, reads what an earlier one wrote at the same slot.
    let mut store = Storage::new();
    let mut writer: StorageVec<u8> = StorageVec::new(123);
    writer.push(&mut store, &127).unwrap();

    assert_eq!(store.get(&element_key(123, 0)), Some(vec![127]));
    assert_eq!(element_key(123, 0), element_key(123, 0));

    let reader: StorageVec<u8> = StorageVec::new(123);
    assert_eq!(reader.get(&store, 0), Some(127));
}
