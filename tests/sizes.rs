use locate::sizes::find_target_size;

#[test]
fn target_size_is_next_power_of_two() {
    assert_eq!(find_target_size(1, 1), 1);
    assert_eq!(find_target_size(3, 2), 4);
    assert_eq!(find_target_size(5, 3), 8);
    assert_eq!(find_target_size(8, 1), 8);
    assert_eq!(find_target_size(9, 1), 16);
    assert_eq!(find_target_size(2000, 1000), 4096);
}

#[test]
fn target_size_holds_whole_correlation() {
    for h in 1..60usize {
        for m in 1..60usize {
            let t = find_target_size(h, m);
            assert!(t.is_power_of_two());
            assert!(t >= h + m - 1);
            assert!(t == 1 || t / 2 < h + m - 1);
            assert_eq!(t, (h + m - 1).next_power_of_two());
        }
    }
}

#[test]
fn target_size_is_symmetric() {
    assert_eq!(find_target_size(10, 7), find_target_size(7, 10));
    assert_eq!(find_target_size(0, 5), 4);
}
