use ip_indexer::ip::ip_range::IpRange;
use ip_indexer::ip::ip_range_bounds::IpRangeBounds;

fn range(r0: &str, r1: &str, r2: &str, r3: &str) -> IpRange {
    IpRange::new(
        IpRangeBounds::from_str(r0).unwrap(),
        IpRangeBounds::from_str(r1).unwrap(),
        IpRangeBounds::from_str(r2).unwrap(),
        IpRangeBounds::from_str(r3).unwrap(),
    )
}

/// The block written out with four nested loops.
fn nested(b: [(u8, u8); 4]) -> Vec<String> {
    let mut all = Vec::new();
    for o0 in b[0].0..=b[0].1 {
        for o1 in b[1].0..=b[1].1 {
            for o2 in b[2].0..=b[2].1 {
                for o3 in b[3].0..=b[3].1 {
                    all.push(format!("{}.{}.{}.{}", o0, o1, o2, o3));
                }
            }
        }
    }
    all
}

fn of(b: [(u8, u8); 4]) -> IpRange {
    let text = |i: usize| format!("{}-{}", b[i].0, b[i].1);
    range(&text(0), &text(1), &text(2), &text(3))
}

fn drain(range: &mut IpRange, batch_size: usize) -> Vec<Vec<String>> {
    let mut batches = Vec::new();
    while range.has_remaining() {
        let batch = range.generate_next_batch(batch_size);
        assert!(!batch.is_empty());
        assert!(batch.len() <= batch_size);
        batches.push(batch);
    }
    batches
}

const BLOCKS: [[(u8, u8); 4]; 7] = [
    [(0, 0), (0, 0), (0, 0), (0, 1)],
    [(10, 10), (0, 0), (0, 1), (0, 255)],
    [(1, 3), (250, 255), (0, 2), (7, 7)],
    [(254, 255), (0, 1), (254, 255), (0, 1)],
    [(5, 5), (6, 6), (7, 7), (8, 8)],
    [(0, 4), (0, 4), (0, 4), (0, 4)],
    [(200, 201), (9, 11), (99, 101), (0, 9)],
];

#[test]
fn total_size_is_the_product_of_the_sizes() {
    assert_eq!(range("0-0", "0-0", "0-0", "0-1").total_size(), 2);
    assert_eq!(range("10-10", "0-0", "0-1", "0-255").total_size(), 512);
    assert_eq!(range("1-3", "250-255", "0-2", "7").total_size(), 3 * 6 * 3);
    assert_eq!(range("0-255", "0-255", "0-255", "0-255").total_size(), 1u64 << 32);
    assert_eq!(range("0-255", "0", "0-255", "0").total_size(), 65536);
    assert_eq!(range("1-2", "1-3", "1-4", "1-5").total_size(), 2 * 3 * 4 * 5);
}

#[test]
fn total_size_counts_the_drained_addresses() {
    for block in BLOCKS {
        for batch_size in [1usize, 2, 3, 7, 100, 512, 100_000] {
            let mut range = of(block);
            let count: usize = drain(&mut range, batch_size).iter().map(|b| b.len()).sum();
            assert_eq!(count as u64, range.total_size());
            assert_eq!(count, nested(block).len());
        }
    }
}

#[test]
fn draining_follows_odometer_order() {
    for block in BLOCKS {
        for batch_size in [1usize, 5, 64, 1000] {
            let mut range = of(block);
            let all: Vec<String> = drain(&mut range, batch_size).concat();
            assert_eq!(all, nested(block));
        }
    }
}

#[test]
fn direct_batches_tile_the_incremental_enumeration() {
    for block in BLOCKS {
        for batch_size in [1usize, 2, 3, 10, 255, 256, 257, 511, 512, 513, 4096] {
            let mut incremental = of(block);
            let direct = of(block);
            let batches = drain(&mut incremental, batch_size);
            assert_eq!(batches.len() as u64, direct.batch_count(batch_size));
            let mut joined = Vec::new();
            for (index, batch) in batches.iter().enumerate() {
                let nth = direct.generate_nth_batch(index, batch_size);
                assert_eq!(&nth, batch);
                joined.extend(nth);
            }
            assert_eq!(joined, nested(block));
        }
    }
}

#[test]
fn direct_batches_may_be_asked_in_any_order() {
    let range = range("10-10", "0-0", "0-1", "0-255");
    let second = range.generate_nth_batch(1, 100);
    let fifth = range.generate_nth_batch(5, 100);
    let first = range.generate_nth_batch(0, 100);
    assert_eq!(range.generate_nth_batch(5, 100), fifth);
    assert_eq!(first[0], "10.0.0.0");
    assert_eq!(first[99], "10.0.0.99");
    assert_eq!(second[0], "10.0.0.100");
    assert_eq!(second[99], "10.0.0.199");
    assert_eq!(fifth.len(), 12);
    assert_eq!(fifth[0], "10.0.1.244");
    assert_eq!(fifth[11], "10.0.1.255");
}

#[test]
fn batch_past_the_end_is_empty() {
    let range = range("10-10", "0-0", "0-1", "0-255");
    assert!(range.generate_nth_batch(2, 300).is_empty());
    assert!(range.generate_nth_batch(1, 512).is_empty());
    assert!(range.generate_nth_batch(512, 1).is_empty());
    assert!(range.generate_nth_batch(1000, 1000).is_empty());
    assert!(range.generate_nth_batch(usize::MAX, 1).is_empty());
    assert!(range.generate_nth_batch(usize::MAX, usize::MAX).is_empty());
    assert!(range.generate_nth_batch(1, usize::MAX).is_empty());
    assert_eq!(range.generate_nth_batch(511, 1), vec!["10.0.1.255".to_string()]);
}

#[test]
fn single_value_range_has_one_address() {
    let mut range = range("5", "6", "7", "8");
    assert_eq!(range.total_size(), 1);
    assert_eq!(range.generate_nth_batch(0, 10), vec!["5.6.7.8".to_string()]);
    assert!(range.generate_nth_batch(1, 10).is_empty());
    assert!(range.has_remaining());
    assert_eq!(range.generate_next_batch(10), vec!["5.6.7.8".to_string()]);
    assert!(!range.has_remaining());
    assert!(range.generate_next_batch(10).is_empty());
}

#[test]
fn batch_size_zero_is_empty_and_keeps_the_cursor() {
    let mut range = range("1-2", "0", "0", "0-2");
    assert!(range.generate_next_batch(0).is_empty());
    assert!(range.has_remaining());
    assert_eq!(range.generate_next_batch(2), vec!["1.0.0.0".to_string(), "1.0.0.1".to_string()]);
    assert!(range.generate_next_batch(0).is_empty());
    assert!(range.has_remaining());
    assert_eq!(range.generate_next_batch(1), vec!["1.0.0.2".to_string()]);
    assert!(range.generate_nth_batch(0, 0).is_empty());
    assert!(range.generate_nth_batch(3, 0).is_empty());
}

#[test]
fn exhaustion_is_absorbing() {
    let mut range = range("1-2", "0", "0", "0-2");
    assert_eq!(range.generate_next_batch(6).len(), 6);
    assert!(!range.has_remaining());
    for batch_size in [0usize, 1, 6, 1000] {
        assert!(range.generate_next_batch(batch_size).is_empty());
        assert!(!range.has_remaining());
    }
}

#[test]
fn exact_fit_exhausts_with_the_last_batch() {
    let mut range = range("0", "0", "0-1", "0-2");
    assert_eq!(range.generate_next_batch(3), vec!["0.0.0.0", "0.0.0.1", "0.0.0.2"]);
    assert!(range.has_remaining());
    assert_eq!(range.generate_next_batch(3), vec!["0.0.1.0", "0.0.1.1", "0.0.1.2"]);
    assert!(!range.has_remaining());
    assert!(range.generate_next_batch(3).is_empty());
}

#[test]
fn direct_generation_leaves_the_cursor_alone() {
    let mut range = range("0", "0", "0", "0-9");
    assert_eq!(range.generate_next_batch(3).len(), 3);
    assert_eq!(range.generate_nth_batch(0, 4), vec!["0.0.0.0", "0.0.0.1", "0.0.0.2", "0.0.0.3"]);
    assert_eq!(range.generate_next_batch(3), vec!["0.0.0.3", "0.0.0.4", "0.0.0.5"]);
}

#[test]
fn a_copy_has_a_cursor_of_its_own() {
    let mut range = range("0", "0", "0", "0-9");
    assert_eq!(range.generate_next_batch(4).len(), 4);
    let mut copy = range;
    assert_eq!(copy.generate_next_batch(2), vec!["0.0.0.4", "0.0.0.5"]);
    assert_eq!(range.generate_next_batch(2), vec!["0.0.0.4", "0.0.0.5"]);
}

#[test]
fn carries_run_through_every_octet() {
    let range = range("1-2", "254-255", "0-1", "9-10");
    assert_eq!(
        range.generate_nth_batch(0, 16),
        vec![
            "1.254.0.9", "1.254.0.10", "1.254.1.9", "1.254.1.10", "1.255.0.9", "1.255.0.10",
            "1.255.1.9", "1.255.1.10", "2.254.0.9", "2.254.0.10", "2.254.1.9", "2.254.1.10",
            "2.255.0.9", "2.255.0.10", "2.255.1.9", "2.255.1.10",
        ]
    );
    assert_eq!(range.generate_nth_batch(1, 7), vec![
        "1.255.1.10", "2.254.0.9", "2.254.0.10", "2.254.1.9", "2.254.1.10", "2.255.0.9",
        "2.255.0.10",
    ]);
}

#[test]
fn addresses_come_in_strictly_increasing_order() {
    for block in BLOCKS {
        let range = of(block);
        let all = range.generate_nth_batch(0, 100_000);
        let tuples: Vec<Vec<u8>> = all
            .iter()
            .map(|text| text.split('.').map(|part| part.parse::<u8>().unwrap()).collect())
            .collect();
        for pair in tuples.windows(2) {
            assert!(pair[0] < pair[1], "{:?} before {:?}", pair[0], pair[1]);
        }
        for tuple in &tuples {
            assert_eq!(tuple.len(), 4);
            for i in 0..4 {
                assert!(block[i].0 <= tuple[i] && tuple[i] <= block[i].1);
            }
        }
        assert_eq!(tuples.len() as u64, range.total_size());
    }
}

#[test]
fn offsets_in_the_full_range() {
    let range = range("0-255", "0-255", "0-255", "0-255");
    assert_eq!(range.generate_nth_batch(0, 2), vec!["0.0.0.0", "0.0.0.1"]);
    assert_eq!(range.generate_nth_batch(1, 256), {
        let mut expected = Vec::new();
        for o3 in 0..=255u8 {
            expected.push(format!("0.0.1.{}", o3));
        }
        expected
    });
    assert_eq!(range.generate_nth_batch(1, 65536)[0], "0.1.0.0");
    assert_eq!(range.generate_nth_batch(1, 1 << 24)[0], "1.0.0.0");
    assert_eq!(range.generate_nth_batch(1 << 31, 1), vec!["128.0.0.0"]);
    assert_eq!(range.generate_nth_batch(3232235876, 1), vec!["192.168.1.100"]);
    assert_eq!(range.generate_nth_batch(16843009, 3), vec!["3.3.3.3", "3.3.3.4", "3.3.3.5"]);
    assert_eq!(range.generate_nth_batch((1 << 32) - 1, 1), vec!["255.255.255.255"]);
    assert_eq!(range.generate_nth_batch(((1u64 << 32) / 5 - 1) as usize, 5)[4], "255.255.255.254");
    assert_eq!(range.generate_nth_batch(((1u64 << 32) / 5) as usize, 5), vec!["255.255.255.255"]);
    assert!(range.generate_nth_batch(1 << 32, 1).is_empty());
    assert!(range.generate_nth_batch(1 << 16, 1 << 16).is_empty());
}

#[test]
fn batch_count_is_the_rounded_up_quotient() {
    let range512 = range("10-10", "0-0", "0-1", "0-255");
    assert_eq!(range512.batch_count(300), 2);
    assert_eq!(range512.batch_count(512), 1);
    assert_eq!(range512.batch_count(513), 1);
    assert_eq!(range512.batch_count(511), 2);
    assert_eq!(range512.batch_count(256), 2);
    assert_eq!(range512.batch_count(255), 3);
    assert_eq!(range512.batch_count(1), 512);
    assert_eq!(range512.batch_count(usize::MAX), 1);
    assert_eq!(range("5", "6", "7", "8").batch_count(1), 1);
    assert_eq!(range("5", "6", "7", "8").batch_count(200_000), 1);
    let full = range("0-255", "0-255", "0-255", "0-255");
    assert_eq!(full.batch_count(200_000), 21475);
    assert_eq!(full.batch_count(1), 1u64 << 32);
    assert_eq!(full.batch_count(1 << 32), 1);
}

#[test]
fn last_counted_batch_holds_the_last_address() {
    for block in BLOCKS {
        for batch_size in [1usize, 3, 50, 512, 9999] {
            let range = of(block);
            let count = range.batch_count(batch_size) as usize;
            let last = range.generate_nth_batch(count - 1, batch_size);
            let upper = format!("{}.{}.{}.{}", block[0].1, block[1].1, block[2].1, block[3].1);
            assert_eq!(last.last(), Some(&upper));
            assert!(range.generate_nth_batch(count, batch_size).is_empty());
        }
    }
}
