use body_tree::generic_mutation::ParamHolder;
use body_tree::rng::RngSource;
use body_tree::tree::{grow_random_tree, random_edge, random_node, BodyTree};
use body_tree::body::Joint;

fn depth_of(tree: &BodyTree, mut node: usize) -> usize {
    let mut d = 0;
    while node != 0 {
        node = tree.parent_of(node);
        d += 1;
    }
    d
}

#[test]
fn depth_zero_grows_a_single_node() {
    let mut rng = RngSource::seeded(1);
    let tree = grow_random_tree(0, &mut rng);
    assert_eq!(tree.node_count(), 1);
    assert!(tree.get_children(tree.root()).is_empty());
    assert_eq!(tree.shape_of(0).param_count(), 9);
}

#[test]
fn depth_two_growth_is_bounded_and_nine_gened() {
    for seed in 0..20u64 {
        let mut rng = RngSource::seeded(seed);
        let tree = grow_random_tree(2, &mut rng);
        for n in 0..tree.node_count() {
            assert!(depth_of(&tree, n) <= 2);
            assert_eq!(tree.shape_of(n).param_count(), 9);
        }
    }
}

#[test]
fn random_node_is_a_stick_with_clamped_genes() {
    let mut rng = RngSource::seeded(99);
    let shape = random_node(&mut rng);
    assert_eq!(shape.param_count(), 9);
    // the preferred stick dimensions are fixed raw values
    assert_eq!(shape.get_param(0), 40_000);
    assert_eq!(shape.get_param(1), 700_000);
    assert_eq!(shape.get_param(2), 40_000);
    for g in 3..9 {
        assert!(shape.get_param(g) <= 1_000_000);
    }
}

#[test]
fn random_edge_is_a_fixed_joint() {
    let mut rng = RngSource::seeded(5);
    for _ in 0..10 {
        assert_eq!(random_edge(&mut rng), Joint::Fixed);
    }
}

#[test]
fn draws_respect_their_bounds() {
    let mut rng = RngSource::seeded(7);
    for _ in 0..200 {
        assert!(rng.below(10) < 10);
        let v = rng.signed_within(100);
        assert!(-100 <= v && v <= 100);
    }
    // a seeded source is reproducible
    let mut a = RngSource::seeded(42);
    let mut b = RngSource::seeded(42);
    for _ in 0..20 {
        assert_eq!(a.below(1_000_000), b.below(1_000_000));
    }
}
