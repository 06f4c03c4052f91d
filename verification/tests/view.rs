use lkv::database::view::pair_range;

#[test]
fn pair_range_requires_both_slices_to_belong_to_the_mapping() {
    let mapping = [0; 16];
    let foreign = [0; 8];

    assert_eq!(
        pair_range(&mapping, &mapping[2..5], &mapping[8..12]),
        Some((2, 12))
    );
    assert_eq!(pair_range(&mapping, &mapping[2..5], &foreign), None);
    assert_eq!(pair_range(&mapping, &foreign, &mapping[8..12]), None);
    assert_eq!(pair_range(&mapping, &mapping[8..12], &mapping[2..5]), None);
}
