use cfpyo3_core::check_fetched_len;
use cfpyo3_core::decode_cells;
use cfpyo3_core::grouped_byte_range;
use cfpyo3_core::hash_code;
use cfpyo3_core::roll_pool_idx;
use cfpyo3_core::trim_key;
use cfpyo3_core::QueueResults;
use cfpyo3_core::RedisError;
use cfpyo3_core::Tracker;
use cfpyo3_core::Trackers;

#[test]
fn test_hash_code() {
    assert_eq!(hash_code(""), "d41d8cd98f00b204e9800998ecf8427e");
    assert_eq!(hash_code("abc"), "900150983cd24fb0d6963f7d28e17f72");
}

#[test]
fn test_pool_rotation() {
    // over more fetches than slots with no contention, every slot is used
    let free = vec![true, true, true];
    let mut cursor = 1usize;
    let mut seen = vec![false; 3];
    for _ in 0..6 {
        let idx = roll_pool_idx(&mut cursor, &free);
        seen[idx] = true;
    }
    assert_eq!(seen, vec![true, true, true]);
}

#[test]
fn test_pool_skips_busy_slots() {
    let free = vec![false, true, false];
    let mut cursor = 2usize;
    let idx = roll_pool_idx(&mut cursor, &free);
    assert_eq!(idx, 1);
    assert_eq!(cursor, 2);
    // with nothing free, the cursor's own slot is taken
    let none_free = vec![false, false];
    let mut cursor = 1usize;
    let idx = roll_pool_idx(&mut cursor, &none_free);
    assert_eq!(idx, 1);
    assert_eq!(cursor, 0);
}

#[test]
fn test_check_fetched_len() {
    assert!(check_fetched_len(4, 12, 8).is_ok());
    let r = check_fetched_len(4, 12, 5);
    assert!(matches!(
        r,
        Err(RedisError::DataShort { start: 4, end: 12, got: 5, want: 8 })
    ));
}

#[test]
fn test_decode_cells() {
    let bytes = vec![1u8, 0, 0, 0, 0xFF, 0xFF, 0xFF, 0xFF, 0x78, 0x56, 0x34, 0x12];
    assert_eq!(decode_cells(&bytes), vec![1, u32::MAX, 0x1234_5678]);
    // a trailing fragment shorter than one cell is dropped
    let bytes = vec![2u8, 0, 0, 0, 9];
    assert_eq!(decode_cells(&bytes), vec![2]);
}

#[test]
fn test_grouped_byte_range() {
    assert_eq!(grouped_byte_range(3, 7, 2), (24, 56));
    assert_eq!(grouped_byte_range(0, 5, 1), (0, 20));
}

#[test]
fn test_trim_key() {
    let mut key = vec![0u8; 8];
    key[..3].copy_from_slice(b"abc");
    assert_eq!(trim_key(&key), b"abc".to_vec());
    assert_eq!(trim_key(&b"xyz".to_vec()), b"xyz".to_vec());
}

#[test]
fn test_tracker() {
    let mut t = Tracker::new();
    t.track(5);
    t.track_start(100);
    t.track_end(140);
    assert_eq!(t.history, vec![5, 40]);
    assert_eq!(t.total(), 45);
    t.reset();
    assert_eq!(t.history.len(), 0);
}

#[test]
fn test_trackers_statics() {
    let mut ts = Trackers::new(3);
    ts.track(0, 10);
    ts.track(1, 3);
    ts.track(1, 4);
    ts.track(2, 50);
    let stats = ts.get_statics();
    assert_eq!(stats.len(), 3);
    assert_eq!(stats[0].n, 1);
    assert_eq!(stats[1].n, 2);
    assert_eq!(stats[1].total, 7);
    assert!(stats[2].is_bottleneck);
    assert!(stats[1].is_fast_path);
    assert!(!stats[0].is_bottleneck && !stats[0].is_fast_path);
}

#[test]
fn test_queue_results() {
    let mut q: QueueResults<u32> = QueueResults::new();
    assert!(q.pop(7).is_none());
    q.insert(7, Ok(1));
    q.insert(9, Err("boom".to_string()));
    q.insert(7, Ok(2));
    assert_eq!(q.pop(7), Some(Ok(2)));
    assert!(q.pop(7).is_none());
    assert_eq!(q.pop(9), Some(Err("boom".to_string())));
    q.insert(1, Ok(5));
    q.clear();
    assert!(q.pop(1).is_none());
}
