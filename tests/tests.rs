use hashmap_mem::{
    calculate_bucket_layout, find_next_valid_entry, get_or_reserve_entry, has, init, layout,
    lookup, overwrite, read_header, remove, total_size, BucketStatus, MapInit, END_OF_ENTRIES,
    SECRET_CODE,
};

fn new_map(map_init: &MapInit) -> Vec<u8> {
    let mut buf = vec![0xAAu8; map_init.total_size as usize];
    init(&mut buf, map_init);
    buf
}

fn put(buf: &mut [u8], at: usize, bytes: &[u8]) {
    buf[at..at + bytes.len()].copy_from_slice(bytes);
}

fn read_u32_at(buf: &[u8], at: usize) -> u32 {
    u32::from_ne_bytes(buf[at..at + 4].try_into().unwrap())
}

fn read_i32_at(buf: &[u8], at: usize) -> i32 {
    i32::from_ne_bytes(buf[at..at + 4].try_into().unwrap())
}

fn read_u64_at(buf: &[u8], at: usize) -> u64 {
    u64::from_ne_bytes(buf[at..at + 8].try_into().unwrap())
}

#[test]
fn test_basic_insert_lookup() {
    let key_size = 4;
    let value_size = 8;
    let (_, map_init) = layout(key_size, 4, value_size, 8, 16);
    let mut map = new_map(&map_init);

    let key: u32 = 0x12345678;
    let key_bytes = key.to_ne_bytes();

    let value_at = get_or_reserve_entry(&mut map, &key_bytes);
    assert!(value_at.is_some());
    put(&mut map, value_at.unwrap(), &0xABCDEF0123456789u64.to_ne_bytes());

    let header = read_header(&map);
    assert_eq!(header.element_count, 1);

    let found = lookup(&map, &key_bytes);
    assert!(found.is_some());
    assert_eq!(read_u64_at(&map, found.unwrap()), 0xABCDEF0123456789);
}

#[test]
fn test_remove() {
    let key_size = 2;
    let value_size = 4;
    let (_, map_init) = layout(key_size, 2, value_size, 4, 8);
    let mut map = new_map(&map_init);

    let key1: u16 = 100;
    let key2: u16 = 200;
    let key1_bytes = key1.to_ne_bytes();
    let key2_bytes = key2.to_ne_bytes();

    let value1_at = get_or_reserve_entry(&mut map, &key1_bytes).unwrap();
    put(&mut map, value1_at, &1000u32.to_ne_bytes());

    let value2_at = get_or_reserve_entry(&mut map, &key2_bytes).unwrap();
    put(&mut map, value2_at, &2000u32.to_ne_bytes());

    let header = read_header(&map);
    assert_eq!(header.element_count, 2);

    let removed = remove(&mut map, &key1_bytes);
    assert!(removed);

    let header = read_header(&map);
    assert_eq!(header.element_count, 1);

    let found = lookup(&map, &key1_bytes);
    assert!(found.is_none());

    let found = lookup(&map, &key2_bytes);
    assert!(found.is_some());
    assert_eq!(read_u32_at(&map, found.unwrap()), 2000);
}

#[test]
fn test_overwrite() {
    let key_size = 4;
    let value_size = 4;
    let (_, source_init) = layout(key_size, 4, value_size, 4, 8);
    let (_, target_init) = layout(key_size, 4, value_size, 4, 16);

    let mut source = new_map(&source_init);
    let mut target = new_map(&target_init);

    for i in 0..3i32 {
        let key_bytes = i.to_ne_bytes();
        let value_at = get_or_reserve_entry(&mut source, &key_bytes).unwrap();
        put(&mut source, value_at, &(i * 100).to_ne_bytes());
    }

    let source_header = read_header(&source);
    assert_eq!(source_header.element_count, 3);

    let success = overwrite(&mut target, &source);
    assert!(success);

    let target_header = read_header(&target);
    assert_eq!(target_header.element_count, 3);

    for i in 0..3i32 {
        let key_bytes = i.to_ne_bytes();
        let found = lookup(&target, &key_bytes);
        assert!(found.is_some());
        assert_eq!(read_i32_at(&target, found.unwrap()), i * 100);
    }
}

#[test]
fn bucket_layout_places_fields_by_alignment() {
    let l = calculate_bucket_layout(4, 4, 8, 8);
    assert_eq!((l.key_offset, l.value_offset, l.bucket_size), (4, 8, 16));
    let l = calculate_bucket_layout(2, 2, 4, 4);
    assert_eq!((l.key_offset, l.value_offset, l.bucket_size), (2, 4, 8));
    let l = calculate_bucket_layout(1, 1, 1, 1);
    assert_eq!((l.key_offset, l.value_offset, l.bucket_size), (1, 2, 3));
    let l = calculate_bucket_layout(3, 1, 8, 8);
    assert_eq!((l.key_offset, l.value_offset, l.bucket_size), (1, 8, 16));
    let l = calculate_bucket_layout(8, 8, 1, 1);
    assert_eq!((l.key_offset, l.value_offset, l.bucket_size), (8, 16, 24));
}

#[test]
fn total_size_counts_header_and_buckets() {
    assert_eq!(total_size(16, 16), 24 + 256);
    assert_eq!(total_size(1, 3), 27);
}

#[test]
fn capacity_is_next_power_of_two() {
    let cases: [(u16, u16); 7] = [(1, 1), (2, 2), (3, 4), (5, 8), (16, 16), (17, 32), (32768, 32768)];
    for (limit, capacity) in cases {
        let (bucket, map_init) = layout(4, 4, 4, 4, limit);
        assert_eq!(map_init.capacity, capacity);
        assert_eq!(map_init.logical_limit, limit);
        assert_eq!(map_init.total_size, 24 + capacity as u32 * bucket.bucket_size);
    }
}

#[test]
fn init_writes_header_and_empties_buckets() {
    let (bucket, map_init) = layout(4, 4, 8, 8, 10);
    let map = new_map(&map_init);
    let header = read_header(&map);
    assert_eq!(header.capacity, 16);
    assert_eq!(header.element_count, 0);
    assert_eq!(header.key_size, 4);
    assert_eq!(header.value_size, 8);
    assert_eq!(header.key_offset, bucket.key_offset);
    assert_eq!(header.value_offset, bucket.value_offset);
    assert_eq!(header.bucket_size, bucket.bucket_size);
    assert_eq!(header.logical_limit, 10);
    assert_eq!(header.padding_and_secret_code, SECRET_CODE);
    assert_eq!(&map[0..2], &16u16.to_le_bytes());
    for i in 0..16usize {
        assert_eq!(map[24 + i * 16], 0);
    }
    assert_eq!(find_next_valid_entry(&map, 0), (None, None, END_OF_ENTRIES));
}

#[test]
fn reserve_is_idempotent() {
    let (_, map_init) = layout(4, 4, 4, 4, 8);
    let mut map = new_map(&map_init);
    let key = 7u32.to_ne_bytes();
    let first = get_or_reserve_entry(&mut map, &key).unwrap();
    put(&mut map, first, &99u32.to_ne_bytes());
    let second = get_or_reserve_entry(&mut map, &key).unwrap();
    assert_eq!(first, second);
    assert_eq!(read_header(&map).element_count, 1);
    assert_eq!(read_u32_at(&map, second), 99);
    assert_eq!(lookup(&map, &key), Some(first));
    assert!(has(&map, &key));
}

#[test]
fn remove_missing_key_fails() {
    let (_, map_init) = layout(4, 4, 4, 4, 8);
    let mut map = new_map(&map_init);
    let key = 7u32.to_ne_bytes();
    let before = map.clone();
    assert!(!remove(&mut map, &key));
    assert_eq!(map, before);
    assert!(!has(&map, &key));
}

#[test]
fn reinsert_after_remove_succeeds() {
    let (_, map_init) = layout(4, 4, 4, 4, 4);
    let mut map = new_map(&map_init);
    for k in 0..4u32 {
        assert!(get_or_reserve_entry(&mut map, &k.to_ne_bytes()).is_some());
    }
    for k in 0..4u32 {
        assert!(remove(&mut map, &k.to_ne_bytes()));
        assert!(lookup(&map, &k.to_ne_bytes()).is_none());
    }
    assert_eq!(read_header(&map).element_count, 0);
    for k in 0..4u32 {
        assert!(get_or_reserve_entry(&mut map, &k.to_ne_bytes()).is_some());
    }
    assert_eq!(read_header(&map).element_count, 4);
}

#[test]
fn capacity_one_refuses_second_key() {
    let (_, map_init) = layout(4, 4, 4, 4, 1);
    assert_eq!(map_init.capacity, 1);
    let mut map = new_map(&map_init);
    let first = 1u32.to_ne_bytes();
    let second = 2u32.to_ne_bytes();
    assert!(get_or_reserve_entry(&mut map, &first).is_some());
    let before = map.clone();
    assert_eq!(get_or_reserve_entry(&mut map, &second), None);
    assert_eq!(map, before);
    assert_eq!(read_header(&map).element_count, 1);
    // the tombstone left by a removal is reused
    assert!(remove(&mut map, &first));
    assert!(get_or_reserve_entry(&mut map, &second).is_some());
    assert_eq!(read_header(&map).element_count, 1);
    assert!(lookup(&map, &first).is_none());
    assert!(lookup(&map, &second).is_some());
}

#[test]
fn iteration_visits_each_entry_once_in_index_order() {
    let (bucket, map_init) = layout(4, 4, 4, 4, 16);
    let mut map = new_map(&map_init);
    for k in [3u32, 14, 15, 92, 65] {
        let at = get_or_reserve_entry(&mut map, &k.to_ne_bytes()).unwrap();
        put(&mut map, at, &(k * 2).to_ne_bytes());
    }
    let mut seen = Vec::new();
    let mut start: u16 = 0;
    loop {
        let (key_at, value_at, index) = find_next_valid_entry(&map, start);
        if index == END_OF_ENTRIES {
            assert!(key_at.is_none() && value_at.is_none());
            break;
        }
        let key_at = key_at.unwrap();
        assert_eq!(key_at, 24 + index as usize * bucket.bucket_size as usize + bucket.key_offset as usize);
        let key = read_u32_at(&map, key_at);
        assert_eq!(read_u32_at(&map, value_at.unwrap()), key * 2);
        seen.push((index, key));
        start = index + 1;
    }
    assert_eq!(seen.len(), 5);
    for w in seen.windows(2) {
        assert!(w[0].0 < w[1].0);
    }
    let mut keys: Vec<u32> = seen.iter().map(|p| p.1).collect();
    keys.sort();
    assert_eq!(keys, vec![3, 14, 15, 65, 92]);
}

#[test]
fn overwrite_refuses_small_logical_limit() {
    let (_, source_init) = layout(4, 4, 4, 4, 8);
    let (_, target_init) = layout(4, 4, 4, 4, 2);
    let mut source = new_map(&source_init);
    let mut target = new_map(&target_init);
    for k in 0..3u32 {
        get_or_reserve_entry(&mut source, &k.to_ne_bytes()).unwrap();
    }
    let before = target.clone();
    assert!(!overwrite(&mut target, &source));
    assert_eq!(target, before);
}

#[test]
fn overwrite_keeps_existing_target_entries() {
    let (_, source_init) = layout(4, 4, 4, 4, 4);
    let (_, target_init) = layout(4, 4, 4, 4, 8);
    let mut source = new_map(&source_init);
    let mut target = new_map(&target_init);
    let at = get_or_reserve_entry(&mut target, &50u32.to_ne_bytes()).unwrap();
    put(&mut target, at, &500u32.to_ne_bytes());
    for k in 1..3u32 {
        let at = get_or_reserve_entry(&mut source, &k.to_ne_bytes()).unwrap();
        put(&mut source, at, &(k + 10).to_ne_bytes());
    }
    assert!(overwrite(&mut target, &source));
    assert_eq!(read_header(&target).element_count, 3);
    assert_eq!(read_u32_at(&target, lookup(&target, &50u32.to_ne_bytes()).unwrap()), 500);
    for k in 1..3u32 {
        assert_eq!(read_u32_at(&target, lookup(&target, &k.to_ne_bytes()).unwrap()), k + 10);
    }
}

#[test]
fn status_bytes_round_trip() {
    for st in [BucketStatus::Empty, BucketStatus::Tombstone, BucketStatus::Occupied] {
        assert_eq!(BucketStatus::from_byte(st.as_byte()), Some(st));
    }
    assert_eq!(BucketStatus::Empty.as_byte(), 0);
    assert_eq!(BucketStatus::Tombstone.as_byte(), 1);
    assert_eq!(BucketStatus::Occupied.as_byte(), 2);
    assert_eq!(BucketStatus::from_byte(3), None);
}

#[test]
fn same_inserts_give_same_outcomes() {
    let (_, map_init) = layout(2, 2, 2, 2, 4);
    let mut a = new_map(&map_init);
    let mut b = a.clone();
    let mut results_a = Vec::new();
    let mut results_b = Vec::new();
    for k in 0..12u16 {
        results_a.push(get_or_reserve_entry(&mut a, &k.to_ne_bytes()));
        results_b.push(get_or_reserve_entry(&mut b, &k.to_ne_bytes()));
    }
    assert_eq!(results_a, results_b);
    assert_eq!(a, b);
    assert_eq!(results_a.iter().filter(|r| r.is_some()).count(), 4);
    assert!(results_a[4..].iter().all(|r| r.is_none()));
    assert_eq!(read_header(&a).element_count, 4);
}
