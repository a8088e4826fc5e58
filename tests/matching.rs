use cache_guess::digest::hash_block;
use cache_guess::digest::same_digest;
use cache_guess::finder::find_matches;
use cache_guess::finder::find_unit;
use cache_guess::finder::rank;
use cache_guess::finder::sub_blocks_per_unit;
use cache_guess::finder::unit_count;
use cache_guess::finder::ConfigError;
use cache_guess::finder::Vote;
use cache_guess::index::collect;
use cache_guess::index::DigestIndex;
use cache_guess::index::IndexError;
use cache_guess::store::read_range;
use cache_guess::store::StoreError;
use cache_guess::BLOCK_SIZE;
use cache_guess::DIGEST_LEN;

fn block(fill: u8) -> Vec<u8> {
    vec![fill; BLOCK_SIZE]
}

fn device(fills: &[u8]) -> Vec<u8> {
    let mut d = Vec::new();
    for f in fills {
        d.extend_from_slice(&block(*f));
    }
    d
}

fn hex(bytes: &[u8]) -> String {
    bytes.iter().map(|b| format!("{:02x}", b)).collect()
}

fn index_of(source: &[u8]) -> DigestIndex {
    DigestIndex::load(&collect(source)).unwrap()
}

#[test]
fn digest_is_sha1() {
    assert_eq!(hex(&hash_block(b"abc")), "a9993e364706816aba3e25717850c26c9cd0d89d");
    assert_eq!(hex(&hash_block(&block(0))), "0631457264ff7f8d5fb1edc2c0211992a67c73e6");
}

#[test]
fn digest_is_deterministic_and_distinguishes() {
    let a = block(7);
    let b = block(7);
    assert_eq!(hash_block(&a), hash_block(&b));
    assert_ne!(hash_block(&a), hash_block(&block(8)));
    assert_eq!(hash_block(&a).len(), DIGEST_LEN);
}

#[test]
fn same_digest_compares_bytes() {
    assert!(same_digest(&[1, 2, 3], &[1, 2, 3]));
    assert!(!same_digest(&[1, 2, 3], &[1, 2, 4]));
    assert!(!same_digest(&[1, 2], &[1, 2, 3]));
    assert!(same_digest(&[], &[]));
}

#[test]
fn index_of_empty_device_is_empty() {
    assert!(collect(&[]).is_empty());
    assert_eq!(index_of(&[]).len(), 0);
}

#[test]
fn index_has_one_digest_per_block() {
    let src = device(&[1, 2, 3]);
    let idx = collect(&src);
    assert_eq!(idx.len(), 3 * DIGEST_LEN);
    for i in 0..3 {
        let start = i * BLOCK_SIZE;
        assert_eq!(&idx[i * DIGEST_LEN..(i + 1) * DIGEST_LEN], &hash_block(&src[start..start + BLOCK_SIZE])[..]);
    }
}

#[test]
fn partial_trailing_block_is_zero_padded() {
    let idx = collect(b"x");
    assert_eq!(idx.len(), DIGEST_LEN);
    assert_eq!(hex(&idx), "e1bbc07357563d07c7f8329d66671c53ba6d18ce");

    let mut src = device(&[5]);
    src.push(9);
    let idx = collect(&src);
    assert_eq!(idx.len(), 2 * DIGEST_LEN);
    let mut tail = vec![0u8; BLOCK_SIZE];
    tail[0] = 9;
    assert_eq!(&idx[DIGEST_LEN..], &hash_block(&tail)[..]);
}

#[test]
fn index_entry_count_is_block_count() {
    for size in [0usize, 1, BLOCK_SIZE - 1, BLOCK_SIZE, BLOCK_SIZE + 1, 3 * BLOCK_SIZE + 17] {
        let src = vec![3u8; size];
        let expected = (size + BLOCK_SIZE - 1) / BLOCK_SIZE;
        assert_eq!(collect(&src).len(), expected * DIGEST_LEN);
        assert_eq!(index_of(&src).len(), expected);
    }
}

#[test]
fn load_rejects_truncated_index() {
    assert!(matches!(DigestIndex::load(&[0u8; 21]), Err(IndexError::Truncated)));
    assert!(matches!(DigestIndex::load(&[0u8; 19]), Err(IndexError::Truncated)));
    assert!(DigestIndex::load(&[0u8; 40]).is_ok());
}

#[test]
fn lookup_lists_every_block_ascending() {
    let src = device(&[1, 2, 1, 3, 1]);
    let ix = index_of(&src);
    assert_eq!(ix.lookup(&hash_block(&block(1))), vec![0, 2, 4]);
    assert_eq!(ix.lookup(&hash_block(&block(3))), vec![3]);
    assert!(ix.lookup(&hash_block(&block(4))).is_empty());
}

#[test]
fn unit_size_validation() {
    assert_eq!(sub_blocks_per_unit(512), Ok(32));
    assert_eq!(sub_blocks_per_unit(16), Ok(1));
    assert_eq!(sub_blocks_per_unit(48), Ok(3));
    assert_eq!(sub_blocks_per_unit(0), Err(ConfigError::InvalidUnitSize));
    assert_eq!(sub_blocks_per_unit(8), Err(ConfigError::InvalidUnitSize));
    assert_eq!(sub_blocks_per_unit(17), Err(ConfigError::InvalidUnitSize));
    assert_eq!(sub_blocks_per_unit(usize::MAX - 15), Err(ConfigError::InvalidUnitSize));
}

#[test]
fn unit_count_ignores_partial_unit() {
    assert_eq!(unit_count(3 * BLOCK_SIZE, 3), 1);
    assert_eq!(unit_count(5 * BLOCK_SIZE + 7, 3), 1);
    assert_eq!(unit_count(6 * BLOCK_SIZE, 3), 2);
    assert_eq!(unit_count(2 * BLOCK_SIZE, 3), 0);
}

#[test]
fn read_range_bounds() {
    let data = [1u8, 2, 3, 4];
    assert_eq!(read_range(&data, 1, 2), Ok(&data[1..3]));
    assert_eq!(read_range(&data, 4, 0), Ok(&data[4..4]));
    assert_eq!(read_range(&data, 3, 2), Err(StoreError::OutOfRange));
    assert_eq!(read_range(&data, usize::MAX, 2), Err(StoreError::OutOfRange));
}

#[test]
fn ranking_orders_by_votes_then_origin() {
    let v = vec![
        Vote { origin: 9, count: 1 },
        Vote { origin: 4, count: 3 },
        Vote { origin: 2, count: 1 },
        Vote { origin: 7, count: 3 },
    ];
    let r = rank(&v);
    let got: Vec<(usize, usize)> = r.iter().map(|x| (x.origin, x.count)).collect();
    assert_eq!(got, vec![(4, 3), (7, 3), (2, 1), (9, 1)]);
}

#[test]
fn exact_copy_matches_fully() {
    let src = device(&[1, 2, 3]);
    let ix = index_of(&src);
    let reps = find_matches(&ix, &src, 48).unwrap();
    assert_eq!(reps.len(), 1);
    assert_eq!(reps[0].unit, 0);
    assert_eq!(reps[0].ranked, vec![Vote { origin: 0, count: 3 }]);
    assert_eq!(reps[0].fake_matches, 0);
}

#[test]
fn swapped_blocks_lower_match_and_count_fakes() {
    let src = device(&[1, 2, 3]);
    let ix = index_of(&src);
    let cache = device(&[1, 3, 2]);
    let reps = find_matches(&ix, &cache, 48).unwrap();
    assert_eq!(reps.len(), 1);
    assert_eq!(reps[0].ranked, vec![Vote { origin: 0, count: 1 }]);
    assert_eq!(reps[0].fake_matches, 2);
}

#[test]
fn aligned_copy_from_later_unit() {
    let src = device(&[1, 2, 3, 4, 5, 6, 7, 8]);
    let ix = index_of(&src);
    let cache = src[2 * BLOCK_SIZE..].to_vec();
    let reps = find_matches(&ix, &cache, 32).unwrap();
    assert_eq!(reps.len(), 3);
    for (u, rep) in reps.iter().enumerate() {
        assert_eq!(rep.unit, u);
        assert_eq!(rep.ranked, vec![Vote { origin: u + 1, count: 2 }]);
        assert_eq!(rep.fake_matches, 0);
    }
}

#[test]
fn misplaced_content_is_fake_not_vote() {
    let src = device(&[1, 2, 3, 4]);
    let ix = index_of(&src);
    let cache = device(&[2, 9]);
    let rep = find_unit(&ix, &cache, 2, 0);
    assert!(rep.ranked.is_empty());
    assert_eq!(rep.fake_matches, 1);
}

#[test]
fn no_match_gives_empty_verdict() {
    let src = device(&[1, 2]);
    let ix = index_of(&src);
    let cache = device(&[8, 9]);
    let reps = find_matches(&ix, &cache, 32).unwrap();
    assert_eq!(reps.len(), 1);
    assert!(reps[0].ranked.is_empty());
    assert_eq!(reps[0].fake_matches, 0);
}

#[test]
fn ties_ranked_by_ascending_origin() {
    let src = device(&[1, 2, 3, 1, 4, 5]);
    let ix = index_of(&src);
    let cache = device(&[1, 9, 9]);
    let rep = find_unit(&ix, &cache, 3, 0);
    assert_eq!(rep.ranked, vec![Vote { origin: 0, count: 1 }, Vote { origin: 1, count: 1 }]);
    assert_eq!(rep.fake_matches, 0);
}

#[test]
fn rerun_gives_same_verdicts() {
    let src = device(&[1, 2, 3, 1, 2, 6, 3, 2, 1]);
    let ix = index_of(&src);
    let cache = device(&[1, 2, 3, 2, 1, 3]);
    let a = find_matches(&ix, &cache, 48).unwrap();
    let b = find_matches(&ix, &cache, 48).unwrap();
    assert_eq!(a.len(), b.len());
    for (x, y) in a.iter().zip(b.iter()) {
        assert_eq!(x.unit, y.unit);
        assert_eq!(x.ranked, y.ranked);
        assert_eq!(x.fake_matches, y.fake_matches);
    }
    assert_eq!(a[0].ranked[0], Vote { origin: 0, count: 3 });
}

#[test]
fn trailing_partial_cache_unit_is_ignored() {
    let src = device(&[1, 2, 3, 4]);
    let ix = index_of(&src);
    let mut cache = device(&[1, 2, 3]);
    cache.extend_from_slice(&[0u8; 100]);
    let reps = find_matches(&ix, &cache, 32).unwrap();
    assert_eq!(reps.len(), 1);
    assert_eq!(reps[0].ranked, vec![Vote { origin: 0, count: 2 }]);
}

#[test]
fn bad_unit_size_is_rejected() {
    let ix = index_of(&device(&[1]));
    assert!(matches!(find_matches(&ix, &device(&[1]), 0), Err(ConfigError::InvalidUnitSize)));
    assert!(matches!(find_matches(&ix, &device(&[1]), 20), Err(ConfigError::InvalidUnitSize)));
}
