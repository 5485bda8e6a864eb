use body_tree::body::{new_cuboid, Joint};
use body_tree::generic_mutation::ParamHolder;
use body_tree::serialise::{deserialise, serialise, DecodeError};
use body_tree::tree::BodyTree;

#[test]
fn save_and_load() {
    let tree = {
        let root_shape = new_cuboid((500_000, 2_000_000, 1_000_000), (0, 0, 0), (0, 0, 0));
        let mut t = BodyTree::with_root(root_shape);
        let root = t.root();
        t.add_child(
            root,
            new_cuboid(
                (1_000_000, 3_000_000, 100_000),
                (0, 2_000_000, 0),
                (1_200_000, 2_000_000, 1_000_000),
            ),
            Joint::Fixed,
        );
        t
    };

    let pop = vec![tree];
    let serialised = serialise(&pop);
    println!("{}", String::from_utf8(serialised.clone()).unwrap());
    let deserialised = deserialise(&serialised).unwrap();

    assert_eq!(pop.len(), deserialised.len());
}

#[test]
fn round_trip_preserves_structure() {
    let mut t = BodyTree::with_root(new_cuboid((500_000, 700_000, 40_000), (1, 2, 3), (4, 5, 6)));
    let root = t.root();
    let a = t.add_child(root, new_cuboid((40_000, 40_000, 40_000), (9, 8, 7), (6, 5, 4)), Joint::Fixed);
    t.add_child(a, new_cuboid((1, 2, 3), (4, 5, 6), (7, 8, 9)), Joint::Fixed);

    let pop = vec![t];
    let bytes = serialise(&pop);
    let back = deserialise(&bytes).unwrap();

    assert_eq!(back.len(), 1);
    let t2 = &back[0];
    assert_eq!(t2.node_count(), 3);
    assert_eq!(t2.parent_of(1), 0);
    assert_eq!(t2.parent_of(2), 1);
    for n in 0..3 {
        let s1 = pop[0].shape_of(n);
        let s2 = t2.shape_of(n);
        for g in 0..9 {
            assert_eq!(s1.get_param(g), s2.get_param(g));
        }
    }
    // a second pass over the wire is byte-identical
    assert_eq!(serialise(&back), bytes);
}

#[test]
fn round_trip_of_the_empty_population() {
    let pop: Vec<BodyTree> = Vec::new();
    let bytes = serialise(&pop);
    assert_eq!(bytes, b"0;".to_vec());
    let back = deserialise(&bytes).unwrap();
    assert_eq!(back.len(), 0);
}

#[test]
fn round_trip_of_a_single_node_tree() {
    let pop = vec![BodyTree::with_root(new_cuboid((0, 0, 0), (0, 0, 0), (0, 0, 0)))];
    let bytes = serialise(&pop);
    let back = deserialise(&bytes).unwrap();
    assert_eq!(back.len(), 1);
    assert_eq!(back[0].node_count(), 1);
}

#[test]
fn malformed_documents_are_rejected() {
    assert!(matches!(deserialise(b"xyz"), Err(DecodeError::Malformed)));
    assert!(matches!(deserialise(b""), Err(DecodeError::Malformed)));
    // truncated: promises one tree, holds none
    assert!(matches!(deserialise(b"1;"), Err(DecodeError::Malformed)));
    // trailing garbage after a valid empty population
    assert!(matches!(deserialise(b"0;x"), Err(DecodeError::Malformed)));
    // leading zero is not canonical
    assert!(matches!(deserialise(b"00;"), Err(DecodeError::Malformed)));
    // a gene out of range
    let good = serialise(&vec![BodyTree::with_root(new_cuboid((0, 0, 0), (0, 0, 0), (0, 0, 0)))]);
    let text = String::from_utf8(good).unwrap();
    let bad = text.replace(",0,0;", ",0,2000000;");
    assert!(matches!(deserialise(bad.as_bytes()), Err(DecodeError::Malformed)));
}
