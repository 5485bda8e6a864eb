use body_tree::generic_mutation::{mutate, ConstGen, CustomParam, ParamSet3d, RangedParam};

fn holder(min: i64, max: i64) -> ParamSet3d<CustomParam> {
    ParamSet3d::new(
        CustomParam::new(min, max, 0),
        CustomParam::new(min, max, 0),
        CustomParam::new(min, max, 0),
    )
}

#[test]
fn test_mutate() {
    let mut holder = holder(0, 20_000_000);
    mutate(&mut holder, &mut ConstGen::new(500_000));

    let expected = 10_000_000; // 20.0 * 0.5, in micro-units
    assert_eq!(holder.x.get_scaled(), expected);
}

#[test]
fn test_clamp() {
    let mut holder = holder(0, 20_000_000);
    mutate(&mut holder, &mut ConstGen::new(-500_000));
    assert_eq!(holder.x.get_scaled(), 0);

    // should be equal to max
    mutate(&mut holder, &mut ConstGen::new(1_500_000));
    assert_eq!(holder.x.get_scaled(), 20_000_000);
}

#[test]
fn test_paramset() {
    let mut holder = holder(0, 10_000_000);
    mutate(&mut holder, &mut ConstGen::new(250_000));

    let expected = 2_500_000; // 10.0 * 0.25, in micro-units
    assert_eq!(holder.x.get_scaled(), expected);
    assert_eq!(holder.y.get_scaled(), expected);
    assert_eq!(holder.z.get_scaled(), expected);
}

#[test]
fn null_generator_leaves_genes_alone() {
    let mut holder = ParamSet3d::new(
        CustomParam::new(0, 20_000_000, 123_456),
        CustomParam::new(0, 20_000_000, 0),
        CustomParam::new(0, 20_000_000, 999_999),
    );
    mutate(&mut holder, &mut ConstGen::new(0));
    assert_eq!(holder.x.get(), 123_456);
    assert_eq!(holder.y.get(), 0);
    assert_eq!(holder.z.get(), 999_999);
}
