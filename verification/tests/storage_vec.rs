use storage_vec::backend::Storage;
use storage_vec::keys::{element_key, scalar_key};
use storage_vec::vector::{Error, StorageVec};

#[test]
fn default_values() {
    let mut store = Storage::new();
    let mut array: StorageVec<String> = StorageVec::new(0);

    assert_eq!(array.pop(&mut store), None);
    assert_eq!(array.len(&store), 0);
}

#[test]
fn push_and_pop_work() {
    let mut store = Storage::new();
    let mut array: StorageVec<String> = StorageVec::new(0);

    let value = "test".to_string();
    array.push(&mut store, &value).unwrap();
    assert_eq!(array.len(&store), 1);
    assert_eq!(array.pop(&mut store), Some(value));

    assert_eq!(array.len(&store), 0);
    assert_eq!(array.pop(&mut store), None);
}

#[test]
fn storage_keys_are_correct() {
    const BASE: u32 = 123;
    let mut store = Storage::new();
    let mut array: StorageVec<u8> = StorageVec::new(BASE);

    let expected_value = 127;
    array.push(&mut store, &expected_value).unwrap();

    let actual_length = store.get(&scalar_key(BASE));
    assert_eq!(actual_length, Some(vec![1, 0, 0, 0]));

    let actual_value = store.get(&element_key(BASE, 0));
    assert_eq!(actual_value, Some(vec![expected_value]));
}

#[test]
fn push_and_pop_work_for_two_vecs_with_same_manual_key() {
    let mut store = Storage::new();
    let expected_value = 255;

    let mut array: StorageVec<u8> = StorageVec::new(u32::MIN);
    array.push(&mut store, &expected_value).unwrap();

    let mut array2: StorageVec<u8> = StorageVec::new(u32::MIN);
    assert_eq!(array2.pop(&mut store), Some(expected_value));
}

#[test]
fn set_and_get_work() {
    let mut store = Storage::new();
    let mut array: StorageVec<String> = StorageVec::new(0);

    let value = "test".to_string();
    array.push(&mut store, &value).unwrap();
    assert_eq!(array.get(&store, 0), Some(value));
    assert_eq!(array.len(&store), 1);

    let replaced_value = "foo".to_string();
    array.set(&mut store, 0, &replaced_value).unwrap();
    assert_eq!(array.get(&store, 0), Some(replaced_value));
}

#[test]
fn set_rejects_out_of_bounds() {
    let mut store = Storage::new();
    let mut array: StorageVec<u8> = StorageVec::new(0);

    assert_eq!(array.set(&mut store, 0, &1), Err(Error::IndexOutOfBounds));
    assert_eq!(array.len(&store), 0);

    array.push(&mut store, &7).unwrap();
    assert_eq!(array.set(&mut store, 1, &9), Err(Error::IndexOutOfBounds));
    assert_eq!(array.len(&store), 1);
    assert_eq!(array.get(&store, 0), Some(7));
}

#[test]
fn push_at_capacity_is_refused() {
    const ROOT: u32 = 9;
    let mut store = Storage::new();

    // A previously committed length of u32::MAX, as the backend records it.
    store.set(&scalar_key(ROOT), vec![255, 255, 255, 255]);

    let mut array: StorageVec<u8> = StorageVec::new(ROOT);
    assert_eq!(array.len(&store), u32::MAX);
    assert_eq!(array.push(&mut store, &1), Err(Error::CapacityExceeded));
    assert_eq!(array.len(&store), u32::MAX);
}

#[test]
fn push_then_pop_returns_values_newest_first() {
    let mut store = Storage::new();
    let mut array: StorageVec<u8> = StorageVec::new(0);

    array.push(&mut store, &1).unwrap();
    array.push(&mut store, &2).unwrap();
    array.push(&mut store, &3).unwrap();
    assert_eq!(array.len(&store), 3);

    assert_eq!(array.pop(&mut store), Some(3));
    assert_eq!(array.pop(&mut store), Some(2));
    assert_eq!(array.pop(&mut store), Some(1));
    assert_eq!(array.len(&store), 0);
    assert_eq!(array.pop(&mut store), None);
}

#[test]
fn length_tracks_pushes_and_pops() {
    let mut store = Storage::new();
    let mut array: StorageVec<u8> = StorageVec::new(0);

    assert!(array.is_empty(&store));
    array.push(&mut store, &10).unwrap();
    assert_eq!(array.len(&store), 1);
    array.push(&mut store, &20).unwrap();
    assert_eq!(array.len(&store), 2);
    assert_eq!(array.pop(&mut store), Some(20));
    assert_eq!(array.len(&store), 1);
    array.push(&mut store, &30).unwrap();
    assert_eq!(array.len(&store), 2);
    assert_eq!(array.pop(&mut store), Some(30));
    assert_eq!(array.pop(&mut store), Some(10));
    assert_eq!(array.pop(&mut store), None);
    // Three pushes, three successful pops: empty again.
    assert_eq!(array.len(&store), 0);
    assert!(array.is_empty(&store));
}

#[test]
fn get_set_round_trip() {
    let mut store = Storage::new();
    let mut array: StorageVec<u8> = StorageVec::new(0);

    array.push(&mut store, &11).unwrap();
    array.push(&mut store, &22).unwrap();
    assert_eq!(array.get(&store, 0), Some(11));
    assert_eq!(array.get(&store, 1), Some(22));
    assert_eq!(array.get(&store, 2), None);

    array.set(&mut store, 0, &33).unwrap();
    assert_eq!(array.get(&store, 0), Some(33));
    assert_eq!(array.get(&store, 1), Some(22));
    assert_eq!(array.len(&store), 2);
}

#[test]
fn fresh_handle_reattaches_to_written_elements() {
    let mut store = Storage::new();
    let mut writer: StorageVec<u32> = StorageVec::new(77);
    writer.push(&mut store, &123456789).unwrap();
    writer.push(&mut store, &987654321).unwrap();

    let reader: StorageVec<u32> = StorageVec::new(77);
    assert_eq!(reader.len(&store), 2);
    assert_eq!(reader.get(&store, 0), Some(123456789));
    assert_eq!(reader.get(&store, 1), Some(987654321));
}

#[test]
fn string_payload_bytes_are_compact_prefixed_utf8() {
    let mut store = Storage::new();
    let mut array: StorageVec<String> = StorageVec::new(4);
    array.push(&mut store, &"test".to_string()).unwrap();

    // Compact-encoded length 4 is the single byte 16, then the UTF-8 bytes.
    let payload = store.get(&element_key(4, 0));
    assert_eq!(payload, Some(vec![16, b't', b'e', b's', b't']));
}

#[test]
fn distinct_roots_do_not_collide() {
    let mut store = Storage::new();
    let mut first: StorageVec<u8> = StorageVec::new(1);
    let mut second: StorageVec<u8> = StorageVec::new(2);

    first.push(&mut store, &100).unwrap();
    second.push(&mut store, &200).unwrap();
    second.push(&mut store, &201).unwrap();

    assert_eq!(first.len(&store), 1);
    assert_eq!(first.get(&store, 0), Some(100));
    assert_eq!(second.len(&store), 2);
    assert_eq!(second.get(&store, 0), Some(200));
}
