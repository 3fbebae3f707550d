use ringil::detection::{anchor_center, nms_keep};

#[test]
fn anchor_centers_on_each_stride() {
    assert_eq!(anchor_center(0, 8), (0, 0));
    assert_eq!(anchor_center(1, 8), (0, 0));
    assert_eq!(anchor_center(2, 8), (8, 0));
    // 80 cells per row at stride 8: cell 80 starts the second row.
    assert_eq!(anchor_center(160, 8), (0, 8));
    assert_eq!(anchor_center(12799, 8), (632, 632));
    assert_eq!(anchor_center(799, 32), (608, 608));
    assert_eq!(anchor_center(41, 16), (320, 0));
}

#[test]
fn suppression_keeps_best_and_drops_overlapped() {
    // 0 overlaps 1; 1 overlaps 2 but 1 is dropped, so 2 survives; 0 overlaps 3.
    let n = 4;
    let mut t = vec![false; n * n];
    t[0 * n + 1] = true;
    t[1 * n + 2] = true;
    t[0 * n + 3] = true;
    assert_eq!(nms_keep(n, &t), vec![0, 2]);
    assert_eq!(nms_keep(0, &[]), Vec::<usize>::new());
    assert_eq!(nms_keep(3, &[false; 9]), vec![0, 1, 2]);
}
