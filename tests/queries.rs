use fnntw::metric::distance;
use fnntw::Tree;

fn lcg(state: &mut u64) -> u64 {
    *state = state.wrapping_mul(6364136223846793005).wrapping_add(1442695040888963407);
    *state >> 33
}

fn random_points(n: usize, dim: usize, below: u64, seed: &mut u64) -> Vec<Vec<i32>> {
    (0..n).map(|_| (0..dim).map(|_| (lcg(seed) % below) as i32 - (below / 2) as i32).collect()).collect()
}

fn scan(q: &Vec<i32>, data: &[Vec<i32>]) -> Vec<(u128, usize)> {
    let mut all: Vec<(u128, usize)> = data.iter().enumerate().map(|(i, p)| (distance(q, p, &vec![], false), i)).collect();
    all.sort();
    all
}

#[test]
fn nearest_matches_a_linear_scan() {
    let mut seed = 11u64;
    for (n, dim, leafsize) in [(1usize, 1usize, 4usize), (50, 1, 4), (300, 2, 4), (300, 3, 9), (200, 6, 32)] {
        let data = random_points(n, dim, 2000, &mut seed);
        let tree = Tree::new(data.clone(), leafsize).unwrap();
        for q in random_points(200, dim, 2400, &mut seed) {
            let (d, i) = tree.nearest(&q);
            assert_eq!((d, i), scan(&q, &data)[0]);
            assert_eq!(distance(&q, &data[i], &vec![], false), d);
        }
    }
}

#[test]
fn nearest_k_matches_a_linear_scan() {
    let mut seed = 12u64;
    for (n, dim, leafsize, k) in [(10usize, 2usize, 4usize, 3usize), (300, 2, 4, 8), (300, 3, 16, 1), (40, 3, 4, 100)] {
        let data = random_points(n, dim, 100, &mut seed);
        let tree = Tree::new(data.clone(), leafsize).unwrap();
        for q in random_points(100, dim, 120, &mut seed) {
            let r = tree.nearest_k(&q, k);
            assert_eq!(r.len(), k.min(n));
            assert!(r.windows(2).all(|w| w[0].0 <= w[1].0));
            let all = scan(&q, &data);
            let dists: Vec<u128> = r.iter().map(|e| e.0).collect();
            let want: Vec<u128> = all.iter().take(k).map(|e| e.0).collect();
            assert_eq!(dists, want);
            assert_eq!(r, all.iter().take(k).copied().collect::<Vec<(u128, usize)>>());
            for &(d, i) in &r {
                assert_eq!(distance(&q, &data[i], &vec![], false), d);
            }
            let mut idx: Vec<usize> = r.iter().map(|e| e.1).collect();
            idx.sort();
            idx.dedup();
            assert_eq!(idx.len(), r.len());
        }
    }
}

#[test]
fn nearest_k_of_zero_is_empty() {
    let tree = Tree::new(vec![vec![1, 1], vec![2, 2]], 4).unwrap();
    assert!(tree.nearest_k(&vec![0, 0], 0).is_empty());
    assert_eq!(tree.nearest_k(&vec![0, 0], 5), vec![(2, 0), (8, 1)]);
}

#[test]
fn equal_points_are_all_reported() {
    let data: Vec<Vec<i32>> = (0..20).map(|_| vec![7, 7]).collect();
    let tree = Tree::new(data, 4).unwrap();
    let r = tree.nearest_k(&vec![7, 8], 20);
    assert_eq!(r.len(), 20);
    assert!(r.iter().all(|e| e.0 == 1));
    let idx: Vec<usize> = r.iter().map(|e| e.1).collect();
    assert_eq!(idx, (0..20).collect::<Vec<usize>>());
    assert_eq!(tree.nearest(&vec![7, 7]), (0, 0));
    assert_eq!(tree.nearest_k(&vec![7, 8], 3), vec![(1, 0), (1, 1), (1, 2)]);
}

#[test]
fn repeated_queries_give_identical_results() {
    let mut seed = 13u64;
    let data = random_points(500, 3, 1000, &mut seed);
    let tree = Tree::new(data, 8).unwrap();
    let boxsize = vec![1000, 1000, 1000];
    let shifted: Vec<Vec<i32>> = (0..500).map(|j| tree.point(j).iter().map(|c| c + 500).collect()).collect();
    let ptree = Tree::new(shifted, 8).unwrap();
    for q in random_points(50, 3, 1000, &mut seed) {
        assert_eq!(tree.nearest(&q), tree.nearest(&q));
        assert_eq!(tree.nearest_k(&q, 6), tree.nearest_k(&q, 6));
        let pq: Vec<i32> = q.iter().map(|c| c + 500).collect();
        assert_eq!(ptree.nearest_periodic(&pq, &boxsize), ptree.nearest_periodic(&pq, &boxsize));
        assert_eq!(ptree.nearest_k_periodic(&pq, 6, &boxsize), ptree.nearest_k_periodic(&pq, 6, &boxsize));
    }
}
