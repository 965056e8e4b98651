use fnntw::{BuildError, Node, Tree};

fn lcg(state: &mut u64) -> u64 {
    *state = state.wrapping_mul(6364136223846793005).wrapping_add(1442695040888963407);
    *state >> 33
}

fn random_points(n: usize, dim: usize, below: u64, seed: u64) -> Vec<Vec<i32>> {
    let mut s = seed;
    (0..n).map(|_| (0..dim).map(|_| (lcg(&mut s) % below) as i32).collect()).collect()
}

#[test]
fn test_make_1dtree_with_size_three() {
    let mut data: Vec<Vec<i32>> = Vec::new();
    data.extend((0..32).map(|_| vec![1]));
    data.extend((0..1).map(|_| vec![5]));
    data.extend((0..32).map(|_| vec![9]));
    let leafsize = 32;
    let tree = Tree::new(data, leafsize).unwrap();
    assert_eq!(tree.size(), 3);
}

#[test]
fn small_input_is_a_single_leaf_in_every_dimension() {
    for d in [1usize, 2, 4, 8, 16, 32, 64, 128, 256] {
        let leafsize = 16;
        let data: Vec<Vec<i32>> = (0..leafsize).map(|x| vec![x as i32; d]).collect();
        let tree = Tree::new(data, leafsize).unwrap();
        assert_eq!(tree.size(), 1);
    }
}

#[test]
fn empty_input_is_refused() {
    assert_eq!(Tree::new(Vec::new(), 16).err(), Some(BuildError::EmptyInput));
    assert_eq!(Tree::new(Vec::new(), 2).err(), Some(BuildError::EmptyInput));
}

#[test]
fn small_leafsize_is_refused() {
    assert_eq!(Tree::new(vec![vec![1, 2]], 3).err(), Some(BuildError::InvalidLeafSize));
    assert_eq!(Tree::new(vec![vec![1, 2]], 0).err(), Some(BuildError::InvalidLeafSize));
    assert!(Tree::new(vec![vec![1, 2]], 4).is_ok());
}

fn check_shape(tree: &Tree, n: usize, dim: usize, leafsize: usize) {
    let mut seen = vec![0usize; n];
    let mut leaves = 0usize;
    for i in 0..tree.size() {
        match tree.node(i) {
            Node::Leaf { points, lower, upper } => {
                leaves += 1;
                assert!(points.len() >= 1 && points.len() <= leafsize);
                for a in 0..dim {
                    let lo = points.iter().map(|&j| tree.point(j)[a]).min().unwrap();
                    let hi = points.iter().map(|&j| tree.point(j)[a]).max().unwrap();
                    assert_eq!(lower[a], lo);
                    assert_eq!(upper[a], hi);
                }
                for &j in points {
                    seen[j] += 1;
                }
            }
            Node::Stem { split_dim, point, left, right } => {
                assert!(*left < i && *right < i);
                assert!(*split_dim < dim);
                seen[*point] += 1;
            }
        }
    }
    assert_eq!(tree.size() + 1, 2 * leaves);
    assert!(seen.iter().all(|&c| c == 1));
}

#[test]
fn tree_shape_holds_on_random_data() {
    for (n, dim, leafsize, seed) in [(1usize, 1usize, 4usize, 1u64), (5, 2, 4, 2), (100, 3, 4, 3), (1000, 2, 7, 4), (333, 5, 32, 5)] {
        let data = random_points(n, dim, 50, seed);
        let tree = Tree::new(data, leafsize).unwrap();
        assert_eq!(tree.len(), n);
        assert_eq!(tree.dim(), dim);
        assert_eq!(tree.leafsize(), leafsize);
        check_shape(&tree, n, dim, leafsize);
    }
}

#[test]
fn stem_points_are_medians_on_their_axis() {
    let data = random_points(200, 2, 1000, 9);
    let tree = Tree::new(data, 4).unwrap();
    fn members(tree: &Tree, i: usize, out: &mut Vec<usize>) {
        match tree.node(i) {
            Node::Leaf { points, .. } => out.extend(points.iter().copied()),
            Node::Stem { point, left, right, .. } => {
                members(tree, *left, out);
                out.push(*point);
                members(tree, *right, out);
            }
        }
    }
    for i in 0..tree.size() {
        if let Node::Stem { split_dim, point, left, right } = tree.node(i) {
            let m = tree.point(*point)[*split_dim];
            let (mut l, mut r) = (Vec::new(), Vec::new());
            members(&tree, *left, &mut l);
            members(&tree, *right, &mut r);
            assert!(l.iter().all(|&j| tree.point(j)[*split_dim] <= m));
            assert!(r.iter().all(|&j| tree.point(j)[*split_dim] >= m));
        }
    }
    match tree.node(tree.size() - 1) {
        Node::Stem { split_dim, .. } => assert_eq!(*split_dim, 1),
        Node::Leaf { .. } => panic!("root of 200 points is a leaf"),
    }
    assert!(tree.node(tree.size() - 1).is_stem());
}

#[test]
fn three_groups_give_two_leaves_under_one_stem() {
    let mut data: Vec<Vec<i32>> = Vec::new();
    data.extend((0..32).map(|_| vec![1]));
    data.push(vec![5]);
    data.extend((0..32).map(|_| vec![9]));
    let tree = Tree::new(data, 32).unwrap();
    assert_eq!(tree.size(), 3);
    match tree.node(0) {
        Node::Leaf { points, lower, upper } => {
            let mut p = points.clone();
            p.sort();
            assert_eq!(p, (0..32).collect::<Vec<usize>>());
            assert_eq!((lower.clone(), upper.clone()), (vec![1], vec![1]));
        }
        Node::Stem { .. } => panic!("position 0 is a stem"),
    }
    match tree.node(1) {
        Node::Leaf { points, lower, upper } => {
            let mut p = points.clone();
            p.sort();
            assert_eq!(p, (33..65).collect::<Vec<usize>>());
            assert_eq!((lower.clone(), upper.clone()), (vec![9], vec![9]));
        }
        Node::Stem { .. } => panic!("position 1 is a stem"),
    }
    match tree.node(2) {
        Node::Stem { split_dim, point, left, right } => {
            assert_eq!((*split_dim, *point, *left, *right), (0, 32, 0, 1));
        }
        Node::Leaf { .. } => panic!("the root is a leaf"),
    }
}

#[test]
fn node_count_depends_on_size_alone() {
    fn total(n: usize, leafsize: usize) -> usize {
        if n <= leafsize { 1 } else { 1 + total(n / 2, leafsize) + total(n - n / 2 - 1, leafsize) }
    }
    for (n, leafsize) in [(5usize, 4usize), (100, 4), (1000, 7), (65, 32), (4096, 16)] {
        let a = random_points(n, 2, 10, 21);
        let b = random_points(n, 2, 100000, 22);
        assert_eq!(Tree::new(a, leafsize).unwrap().size(), total(n, leafsize));
        assert_eq!(Tree::new(b, leafsize).unwrap().size(), total(n, leafsize));
    }
}
