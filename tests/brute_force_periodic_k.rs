use fnntw::metric::distance;
use fnntw::Tree;

const NDATA: usize = 100;
const NQUERY: usize = 10_000;
const BOX: i32 = 1 << 20;
const D: usize = 3;
const K: usize = 4;

fn lcg(state: &mut u64) -> u64 {
    *state = state.wrapping_mul(6364136223846793005).wrapping_add(1442695040888963407);
    *state >> 33
}

fn random_point(state: &mut u64) -> Vec<i32> {
    (0..D).map(|_| (lcg(state) % BOX as u64) as i32).collect()
}

fn squared_euclidean(a: &[i64], b: &[i32]) -> u128 {
    a.iter().zip(b).map(|(x, y)| {
        let d = (x - *y as i64).unsigned_abs() as u128;
        d * d
    }).sum()
}

/// For each point, the least squared distance over the 2^D images of the query, each
/// axis either kept or moved by one box width towards the other half; then the k least.
fn brute_force_periodic_k(q: &[i32], data: &[Vec<i32>], k: usize) -> Vec<(u128, usize)> {
    let mut all: Vec<(u128, usize)> = Vec::new();
    for (i, d) in data.iter().enumerate() {
        let mut best = u128::MAX;
        for image in 0..(1usize << D) {
            let shifted: Vec<i64> = (0..D).map(|idx| {
                let c = q[idx] as i64;
                if (image >> idx) & 1 == 1 {
                    if c < (BOX as i64) / 2 { c + BOX as i64 } else { c - BOX as i64 }
                } else {
                    c
                }
            }).collect();
            best = best.min(squared_euclidean(&shifted, d));
        }
        all.push((best, i));
    }
    all.sort();
    all.truncate(k);
    all
}

#[test]
fn test_brute_force_periodic_k() {
    let mut rng = 0x5eed_u64;
    let mut data = Vec::with_capacity(NDATA);
    let mut query = Vec::with_capacity(NQUERY);
    for _ in 0..NDATA {
        data.push(random_point(&mut rng));
    }
    for _ in 0..NQUERY {
        query.push(random_point(&mut rng));
    }
    let boxsize = vec![BOX; D];
    let tree = Tree::new(data.clone(), 32).unwrap();
    let mut results = Vec::with_capacity(NQUERY);
    for q in &query {
        results.push(tree.nearest_k_periodic(q, K, &boxsize));
    }
    for (i, q) in query.iter().enumerate() {
        let result = &results[i];
        let expected = brute_force_periodic_k(q, &data, K);
        assert_eq!(result.len(), K);
        assert_eq!(expected.len(), K);
        assert_eq!(*result, expected);
    }
}

#[test]
fn periodic_distance_is_the_minimum_image() {
    assert_eq!(distance(&vec![1], &vec![9], &vec![10], true), 4);
    assert_eq!(distance(&vec![1], &vec![9], &vec![10], false), 64);
    assert_eq!(distance(&vec![0, 0], &vec![3, 4], &vec![], false), 25);
    assert_eq!(distance(&vec![0, 5], &vec![10, 0], &vec![10, 10], true), 25);
    assert_eq!(distance(&vec![i32::MIN, i32::MIN], &vec![i32::MAX, i32::MAX], &vec![], false), 2 * (u32::MAX as u128) * (u32::MAX as u128));
}

#[test]
fn query_on_the_box_edge_sees_through_it() {
    let data = vec![vec![99, 50], vec![50, 50], vec![3, 50]];
    let boxsize = vec![100, 100];
    let tree = Tree::new(data, 4).unwrap();
    assert_eq!(tree.nearest_periodic(&vec![0, 50], &boxsize), (1, 0));
    assert_eq!(tree.nearest_periodic(&vec![100, 50], &boxsize), (1, 0));
    assert_eq!(tree.nearest(&vec![0, 50]), (9, 2));
    assert_eq!(tree.nearest_k_periodic(&vec![0, 50], 2, &boxsize), vec![(1, 0), (9, 2)]);
}

#[test]
fn edge_neighbours_across_a_split_are_found() {
    // Many points so that stems split the box; the nearest through the edge lies in a
    // far subtree.
    let mut data: Vec<Vec<i32>> = (0..64).map(|i| vec![10 + i, 500]).collect();
    data.push(vec![999, 500]);
    let tree = Tree::new(data, 4).unwrap();
    let boxsize = vec![1000, 1000];
    assert_eq!(tree.nearest_periodic(&vec![0, 500], &boxsize), (1, 64));
    assert_eq!(tree.nearest_periodic(&vec![1000, 500], &boxsize), (1, 64));
    let r = tree.nearest_k_periodic(&vec![0, 500], 3, &boxsize);
    assert_eq!(r, vec![(1, 64), (100, 0), (121, 1)]);
}
