use body_tree::body::{new_cuboid, Joint, ShapeDefinition};
use body_tree::generic_mutation::{ParamHolder, RAW_ONE};
use body_tree::rng::RngSource;
use body_tree::serialise::{deserialise, serialise};
use body_tree::tree::{BodyTree, DebugRealiser};

fn shape() -> ShapeDefinition {
    new_cuboid((5_000_000, 5_000_000, 5_000_000), (0, 0, 0), (0, 0, 0))
}

fn joint() -> Joint {
    Joint::Fixed
}

fn recorded(r: &DebugRealiser) -> Vec<(u64, u64)> {
    r.calls.iter().map(|c| (c.id, c.parent)).collect()
}

#[test]
fn realiser() {
    let mut tree = BodyTree::with_root(shape());
    let mut parent = tree.root();
    parent = tree.add_child(parent, shape(), joint());
    tree.add_child(parent, shape(), joint());
    tree.add_child(parent, shape(), joint());

    let mut r = DebugRealiser::new();
    tree.realise(&mut r);
    assert_eq!(recorded(&r), vec![(1, 0), (2, 1), (3, 2), (4, 2)]);
}

#[test]
fn tree_realiser() {
    let mut tree = BodyTree::with_root(shape());
    let mut parent = tree.root();
    parent = tree.add_child(parent, shape(), joint());
    tree.add_child(parent, shape(), joint());
    tree.add_child(parent, shape(), joint());

    let mut r = DebugRealiser::new();
    tree.realise(&mut r);
    assert_eq!(recorded(&r), vec![(1, 0), (2, 1), (3, 2), (4, 2)]);
}

#[test]
fn realise_visits_three_children_in_order() {
    // a root cuboid with three fixed-joint children added in sequence
    let mut tree = BodyTree::with_root(shape());
    let root = tree.root();
    tree.add_child(root, shape(), joint());
    tree.add_child(root, shape(), joint());
    tree.add_child(root, shape(), joint());

    let mut r = DebugRealiser::new();
    tree.realise(&mut r);
    // visited root, then each child in insertion order; every child's
    // recorded parent id is the id assigned to the root
    assert_eq!(recorded(&r), vec![(1, 0), (2, 1), (3, 1), (4, 1)]);
    assert_eq!(r.calls[1].joint, Joint::Fixed);
    assert_eq!(r.calls[0].joint, Joint::Ground);
}

#[test]
fn realise_debug_pins_the_whole_trace() {
    // the concrete debug driver yields the same trace as realising with a
    // fresh recorder, with ids pinned to the visit order
    let mut tree = BodyTree::with_root(shape());
    let mut parent = tree.root();
    parent = tree.add_child(parent, shape(), joint());
    tree.add_child(parent, shape(), joint());
    tree.add_child(parent, shape(), joint());

    let d = tree.realise_debug();
    assert_eq!(recorded(&d), vec![(1, 0), (2, 1), (3, 2), (4, 2)]);

    let mut r = DebugRealiser::new();
    tree.realise(&mut r);
    assert_eq!(recorded(&d), recorded(&r));
}

#[test]
fn realise_twice_gives_same_call_pattern() {
    let mut tree = BodyTree::with_root(shape());
    let mut parent = tree.root();
    parent = tree.add_child(parent, shape(), joint());
    tree.add_child(parent, shape(), joint());

    let mut r1 = DebugRealiser::new();
    let mut r2 = DebugRealiser::new();
    tree.realise(&mut r1);
    tree.realise(&mut r2);
    assert_eq!(recorded(&r1), recorded(&r2));
}

#[test]
fn children_are_listed_in_insertion_order() {
    let mut tree = BodyTree::with_root(shape());
    let root = tree.root();
    let a = tree.add_child(root, shape(), Joint::Fixed);
    let b = tree.add_child(root, shape(), Joint::Fixed);
    let under_a = tree.add_child(a, shape(), Joint::Fixed);

    let kids: Vec<usize> = tree.get_children(root).iter().map(|p| p.0).collect();
    assert_eq!(kids, vec![a, b]);
    let kids_a: Vec<usize> = tree.get_children(a).iter().map(|p| p.0).collect();
    assert_eq!(kids_a, vec![under_a]);
    assert!(tree.get_children(b).is_empty());
    // every listed child names the queried node as its parent
    for (c, _) in tree.get_children(root) {
        assert_eq!(tree.parent_of(c), root);
    }
}

#[test]
fn mutate_with_zero_rate_is_a_no_op() {
    let mut tree = BodyTree::with_root(shape());
    let root = tree.root();
    tree.add_child(root, shape(), Joint::Fixed);
    let before = serialise(&vec![tree]);

    let mut pop = deserialise(&before).unwrap();
    let mut rng = RngSource::seeded(7);
    pop[0].mutate(0, 1_000_000, &mut rng);
    let after = serialise(&pop);
    assert_eq!(before, after);
}

#[test]
fn mutation_keeps_genes_in_range_and_reaches_the_bounds() {
    let mut tree = BodyTree::with_root(shape());
    let mut rng = RngSource::seeded(2024);
    let mut saw_zero = false;
    let mut saw_one = false;
    for _ in 0..300 {
        tree.mutate(RAW_ONE, RAW_ONE, &mut rng);
        let shape = tree.shape_of(0);
        for g in 0..shape.param_count() {
            let raw = shape.get_param(g);
            assert!(raw <= RAW_ONE);
            if raw == 0 {
                saw_zero = true;
            }
            if raw == RAW_ONE {
                saw_one = true;
            }
        }
    }
    assert!(saw_zero && saw_one);
}
