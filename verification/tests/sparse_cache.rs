use std::sync::{Arc, Mutex};
use std::time::{Duration, Instant};

use omega_drive::flights::FlightTable;
use omega_drive::sparse::SparseCache;

fn read(cache: &SparseCache, file_id: i64, offset: u64, len: u64) -> Vec<u8> {
    assert!(cache.is_range_filled(file_id, offset, len));
    cache.assemble_range(file_id, offset, len).unwrap()
}

#[test]
fn write_then_read() {
    let mut cache = SparseCache::new(1024 * 1024);
    cache.write(1, 0, b"hello".to_vec());
    assert!(cache.is_range_filled(1, 0, 5));
    let out = read(&cache, 1, 0, 5);
    assert_eq!(&out[..], b"hello");
}

#[test]
fn wait_blocks_until_data() {
    let rt = tokio::runtime::Builder::new_current_thread().enable_time().build().unwrap();
    rt.block_on(async {
        let cache = Arc::new(Mutex::new(SparseCache::new(1024 * 1024)));
        let (tx, mut rx) = tokio::sync::watch::channel(0u64);
        let c2 = cache.clone();
        tokio::spawn(async move {
            tokio::time::sleep(Duration::from_millis(50)).await;
            let version = c2.lock().unwrap().write(1, 0, b"data".to_vec());
            tx.send(version.unwrap_or(0)).ok();
        });
        let t = Instant::now();
        let out = loop {
            {
                let c = cache.lock().unwrap();
                if c.is_range_filled(1, 0, 4) {
                    break c.assemble_range(1, 0, 4).unwrap();
                }
            }
            rx.changed().await.unwrap();
        };
        assert!(t.elapsed() >= Duration::from_millis(30));
        assert_eq!(&out[..], b"data");
    });
}

#[test]
fn touching_left_chunk_is_merged() {
    let mut cache = SparseCache::new(10);
    cache.write(1, 0, b"aaaaa".to_vec());
    assert_eq!(cache.current_bytes(), 5);
    cache.write(1, 5, b"bbbbb".to_vec());
    // One merged chunk of 10 bytes is over the watermark and is evicted whole.
    assert_eq!(cache.current_bytes(), 0);

    let mut big = SparseCache::new(1024);
    big.write(1, 0, b"aaa".to_vec());
    big.write(1, 3, b"bbb".to_vec());
    assert_eq!(big.current_bytes(), 6);
    assert_eq!(read(&big, 1, 0, 6), b"aaabbb".to_vec());
}

#[test]
fn merge_adjacent_chunks() {
    let mut cache = SparseCache::new(1024 * 1024);
    cache.write(1, 0, b"aaa".to_vec());
    cache.write(1, 6, b"ccc".to_vec());
    cache.write(1, 3, b"bbb".to_vec());
    assert!(cache.is_range_filled(1, 0, 9));
    let out = read(&cache, 1, 0, 9);
    assert_eq!(&out[..], b"aaabbbccc");
}

#[test]
fn merge_overlapping() {
    let mut cache = SparseCache::new(1024 * 1024);
    cache.write(1, 0, b"AAAAAA".to_vec());
    cache.write(1, 3, b"BBB".to_vec());
    assert_eq!(cache.current_bytes(), 6);
    let out = read(&cache, 1, 0, 6);
    assert_eq!(&out[..], b"AAABBB");
}

#[test]
fn gap_detected() {
    let mut cache = SparseCache::new(1024 * 1024);
    cache.write(1, 0, b"AA".to_vec());
    cache.write(1, 4, b"BB".to_vec());
    assert!(!cache.is_range_filled(1, 0, 6));
}

#[test]
fn evicts_when_over_limit() {
    let mut cache = SparseCache::new(100);
    for i in 0..10u64 {
        cache.write(1, i * 10, vec![b'x'; 10]);
    }
    assert!(cache.current_bytes() <= 100);
}

#[test]
fn pinned_not_evicted() {
    let mut cache = SparseCache::new(60);
    cache.set_pin_window(1, 0, 10, 10);
    cache.write(1, 0, vec![b'a'; 10]);
    cache.write(1, 10, vec![b'b'; 10]);
    cache.write(1, 20, vec![b'c'; 10]);
    cache.write(1, 30, vec![b'd'; 10]);
    cache.write(1, 40, vec![b'e'; 10]);
    cache.write(1, 50, vec![b'f'; 10]);
    cache.unpin_file(1);
    cache.write(1, 60, vec![b'g'; 10]);
    assert!(cache.current_bytes() <= 60);
}

#[test]
fn chunked_streaming() {
    let rt = tokio::runtime::Builder::new_current_thread().enable_time().build().unwrap();
    rt.block_on(async {
        let cache = Arc::new(Mutex::new(SparseCache::new(1024 * 1024)));
        let (tx, mut rx) = tokio::sync::watch::channel(0u64);
        let c2 = cache.clone();
        tokio::spawn(async move {
            for i in 0..4u64 {
                tokio::time::sleep(Duration::from_millis(10)).await;
                let version = c2.lock().unwrap().write(1, i * 65536, vec![b'A' + i as u8; 65536]);
                tx.send(version.unwrap_or(0)).ok();
            }
        });
        for i in 0..4u64 {
            let chunk = loop {
                {
                    let c = cache.lock().unwrap();
                    if c.is_range_filled(1, i * 65536, 65536) {
                        break c.assemble_range(1, i * 65536, 65536).unwrap();
                    }
                }
                rx.changed().await.unwrap();
            };
            assert_eq!(chunk.len(), 65536);
            assert_eq!(chunk[0], b'A' + i as u8);
        }
    });
}

#[test]
fn two_files_independent() {
    let mut cache = SparseCache::new(1024 * 1024);
    cache.write(1, 0, b"file1".to_vec());
    cache.write(2, 0, b"file2".to_vec());
    assert!(cache.is_range_filled(1, 0, 5));
    assert!(cache.is_range_filled(2, 0, 5));
    let out1 = read(&cache, 1, 0, 5);
    let out2 = read(&cache, 2, 0, 5);
    assert_eq!(&out1[..], b"file1");
    assert_eq!(&out2[..], b"file2");
}

#[test]
fn clear_removes_all() {
    let mut cache = SparseCache::new(1024 * 1024);
    cache.write(1, 0, b"data".to_vec());
    cache.clear();
    assert!(!cache.is_range_filled(1, 0, 4));
    assert_eq!(cache.current_bytes(), 0);
}

#[test]
fn empty_write_changes_nothing() {
    let mut cache = SparseCache::new(1024);
    assert_eq!(cache.write(1, 0, Vec::new()), None);
    assert_eq!(cache.current_bytes(), 0);
    assert!(cache.assemble_range(1, 0, 0).is_none());
}

#[test]
fn later_write_wins_over_earlier_bytes() {
    let mut cache = SparseCache::new(1024);
    cache.write(7, 10, b"0123456789".to_vec());
    cache.write(7, 12, b"ab".to_vec());
    assert_eq!(read(&cache, 7, 10, 10), b"01ab456789".to_vec());
    assert_eq!(cache.current_bytes(), 10);
}

#[test]
fn pinned_chunk_survives_eviction() {
    let mut cache = SparseCache::new(20);
    cache.set_pin_window(3, 100, 0, 50);
    cache.write(3, 100, vec![1u8; 10]);
    cache.write(4, 0, vec![2u8; 10]);
    // 20 bytes exceed nine tenths of the budget; only the unpinned chunk goes.
    assert!(cache.is_range_filled(3, 100, 10));
    assert!(!cache.is_range_filled(4, 0, 10));
    assert_eq!(cache.current_bytes(), 10);
}

#[test]
fn zero_length_range_is_filled_for_known_file() {
    let mut cache = SparseCache::new(1024);
    cache.write(1, 5, b"x".to_vec());
    assert!(cache.is_range_filled(1, 0, 0));
    assert_eq!(cache.assemble_range(1, 5, 0), Some(Vec::new()));
}

#[test]
fn flights_are_led_once_and_land() {
    let mut t: FlightTable<u32> = FlightTable::new();
    let key = (5, 2, 0, 1024);
    assert!(t.joined(key).is_none());
    assert!(t.lead(key, 7));
    assert_eq!(t.joined(key), Some(&7));
    assert!(!t.lead(key, 9));
    assert_eq!(t.joined(key), Some(&7));
    assert!(t.lead((5, 3, 0, 1024), 8));
    t.land(key);
    assert!(t.joined(key).is_none());
    assert_eq!(t.joined((5, 3, 0, 1024)), Some(&8));
    assert!(t.lead(key, 9));
    assert_eq!(t.joined(key), Some(&9));
}

#[test]
fn oldest_unpinned_chunk_goes_first() {
    let mut cache = SparseCache::new(100);
    cache.write(1, 0, vec![1; 30]);
    cache.write(1, 100, vec![2; 30]);
    cache.write(1, 200, vec![3; 30]);
    assert_eq!(cache.current_bytes(), 90);
    cache.write(1, 300, vec![4; 30]);
    assert!(!cache.is_range_filled(1, 0, 30));
    assert!(cache.is_range_filled(1, 100, 30));
    assert!(cache.is_range_filled(1, 200, 30));
    assert!(cache.is_range_filled(1, 300, 30));
    assert_eq!(cache.current_bytes(), 90);

    let mut pinned = SparseCache::new(100);
    pinned.set_pin_window(1, 0, 0, 30);
    pinned.write(1, 0, vec![1; 30]);
    pinned.write(1, 100, vec![2; 30]);
    pinned.write(1, 200, vec![3; 30]);
    pinned.write(1, 300, vec![4; 30]);
    assert!(pinned.is_range_filled(1, 0, 30));
    assert!(!pinned.is_range_filled(1, 100, 30));
    assert!(pinned.is_range_filled(1, 200, 30));
    assert_eq!(pinned.current_bytes(), 90);
}
