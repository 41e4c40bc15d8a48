use course_graph_ext::dedup::{deduplicate, post_process, Detection};
use course_graph_ext::geometry::{iou, iou_exceeds, is_contained, BBox, Threshold};

fn bx(x1: i32, y1: i32, x2: i32, y2: i32) -> BBox {
    BBox { x1, y1, x2, y2 }
}

fn det(label: &str, b: BBox) -> Detection {
    Detection::new(label.to_string(), b)
}

fn half() -> Threshold {
    Threshold { num: 1, den: 2 }
}

fn fifth() -> Threshold {
    Threshold { num: 1, den: 5 }
}

fn zero() -> Threshold {
    Threshold { num: 0, den: 1 }
}

#[test]
fn iou_of_half_overlapping_boxes() {
    assert_eq!(iou(&bx(0, 0, 10, 10), &bx(5, 0, 15, 10)), (50, 150));
}

#[test]
fn iou_of_disjoint_boxes_is_zero() {
    assert_eq!(iou(&bx(0, 0, 10, 10), &bx(20, 20, 30, 30)), (0, 200));
}

#[test]
fn iou_of_coincident_degenerate_boxes_is_zero() {
    assert_eq!(iou(&bx(3, 3, 3, 3), &bx(3, 3, 3, 3)), (0, 1));
}

#[test]
fn iou_of_nested_boxes() {
    assert_eq!(iou(&bx(0, 0, 10, 10), &bx(1, 1, 9, 9)), (64, 100));
}

#[test]
fn iou_exceeds_compares_exactly() {
    let a = bx(0, 0, 10, 10);
    let b = bx(5, 0, 15, 10);
    assert!(!iou_exceeds(&a, &b, half()));
    assert!(iou_exceeds(&a, &b, fifth()));
    assert!(!iou_exceeds(&a, &b, Threshold { num: 1, den: 3 }));
    assert!(iou_exceeds(&a, &b, Threshold { num: 33, den: 100 }));
}

#[test]
fn containment_is_inclusive_and_directed() {
    let a = bx(0, 0, 10, 10);
    let b = bx(1, 1, 9, 9);
    assert!(is_contained(&a, &b));
    assert!(!is_contained(&b, &a));
    assert!(is_contained(&a, &a));
    assert!(!is_contained(&a, &bx(1, 1, 11, 9)));
}

#[test]
fn empty_input_gives_empty_output() {
    assert_eq!(deduplicate(vec![], half(), &vec![]), vec![]);
    assert_eq!(post_process(vec![], zero()), vec![]);
}

#[test]
fn nested_pair_heads_keeps_outer() {
    let a = det("A", bx(0, 0, 10, 10));
    let b = det("B", bx(1, 1, 9, 9));
    let out = deduplicate(vec![a.copy(), b.copy()], half(), &vec![true]);
    assert_eq!(out, vec![a]);
}

#[test]
fn nested_pair_tails_keeps_outer() {
    // the overlap of 0.64 is above 0.5, but containment is settled first
    let a = det("A", bx(0, 0, 10, 10));
    let b = det("B", bx(1, 1, 9, 9));
    let out = deduplicate(vec![a.copy(), b.copy()], half(), &vec![false]);
    assert_eq!(out, vec![a.copy()]);
    let out = deduplicate(vec![b.copy(), a.copy()], half(), &vec![false]);
    assert_eq!(out, vec![a.copy()]);
    assert_eq!(post_process(vec![b, a.copy()], half()), vec![a]);
}

#[test]
fn side_by_side_below_threshold_keeps_both() {
    let a = det("A", bx(0, 0, 10, 10));
    let b = det("B", bx(5, 0, 15, 10));
    let out = deduplicate(vec![a.copy(), b.copy()], half(), &vec![]);
    assert_eq!(out, vec![a.copy(), b.copy()]);
    let out = post_process(vec![a.copy(), b.copy()], half());
    assert_eq!(out, vec![a, b]);
}

#[test]
fn side_by_side_above_threshold_heads_keeps_first() {
    let a = det("A", bx(0, 0, 10, 10));
    let b = det("B", bx(5, 0, 15, 10));
    let out = deduplicate(vec![a.copy(), b.copy()], fifth(), &vec![true]);
    assert_eq!(out, vec![a]);
}

#[test]
fn side_by_side_above_threshold_tails_keeps_second() {
    let a = det("A", bx(0, 0, 10, 10));
    let b = det("B", bx(5, 0, 15, 10));
    let out = deduplicate(vec![a.copy(), b.copy()], fifth(), &vec![false]);
    assert_eq!(out, vec![b]);
}

#[test]
fn side_by_side_above_threshold_random_keeps_one() {
    let a = det("A", bx(0, 0, 10, 10));
    let b = det("B", bx(5, 0, 15, 10));
    let out = post_process(vec![a.copy(), b.copy()], fifth());
    assert!(out == vec![a] || out == vec![b]);
}

#[test]
fn small_box_inside_is_removed_in_either_order() {
    let a = det("A", bx(0, 0, 10, 10));
    let c = det("C", bx(4, 4, 5, 5));
    for coins in [vec![], vec![true], vec![false]] {
        assert_eq!(deduplicate(vec![a.copy(), c.copy()], half(), &coins), vec![a.copy()]);
        assert_eq!(deduplicate(vec![c.copy(), a.copy()], half(), &coins), vec![a.copy()]);
    }
    assert_eq!(post_process(vec![c.copy(), a.copy()], half()), vec![a]);
}

#[test]
fn separated_boxes_are_returned_unchanged() {
    let dets = vec![
        det("x", bx(0, 0, 4, 4)),
        det("y", bx(10, 0, 14, 4)),
        det("z", bx(3, 3, 8, 8)),
    ];
    let expected: Vec<Detection> = dets.iter().map(|d| d.copy()).collect();
    assert_eq!(post_process(dets, half()), expected);
}

#[test]
fn equal_values_are_all_removed_with_a_mark() {
    let a = det("A", bx(0, 0, 10, 10));
    let b = det("B", bx(2, 2, 3, 3));
    let out = deduplicate(vec![a.copy(), b.copy(), b.copy()], half(), &vec![]);
    assert_eq!(out, vec![a]);
}

#[test]
fn duplicate_detection_keeps_the_first() {
    let a = det("A", bx(0, 0, 10, 10));
    let out = deduplicate(vec![a.copy(), a.copy()], Threshold { num: 1, den: 1 }, &vec![]);
    assert_eq!(out, vec![a]);
}

#[test]
fn zero_threshold_leaves_no_overlap() {
    let dets = vec![
        det("a", bx(0, 0, 10, 10)),
        det("b", bx(9, 9, 20, 20)),
        det("c", bx(19, 0, 30, 10)),
        det("d", bx(40, 40, 50, 50)),
    ];
    let out = deduplicate(dets.iter().map(|d| d.copy()).collect(), zero(), &vec![true]);
    for i in 0..out.len() {
        for j in i + 1..out.len() {
            assert_eq!(iou(&out[i].bbox, &out[j].bbox).0, 0);
        }
    }
    assert_eq!(
        out,
        vec![det("a", bx(0, 0, 10, 10)), det("c", bx(19, 0, 30, 10)), det("d", bx(40, 40, 50, 50))]
    );
    let out = deduplicate(dets, zero(), &vec![false, false]);
    assert_eq!(out, vec![det("c", bx(19, 0, 30, 10)), det("d", bx(40, 40, 50, 50))]);
}

#[test]
fn output_is_a_subset_of_the_input() {
    let dets = vec![
        det("a", bx(0, 0, 10, 10)),
        det("b", bx(2, 0, 12, 10)),
        det("c", bx(1, 1, 3, 3)),
        det("d", bx(50, 50, 60, 60)),
        det("e", bx(51, 50, 61, 60)),
    ];
    let input: Vec<Detection> = dets.iter().map(|d| d.copy()).collect();
    let out = post_process(dets, half());
    assert!(out.len() <= input.len());
    for d in out.iter() {
        assert!(input.contains(d));
    }
}

#[test]
fn labels_are_carried_unchanged() {
    let a = det("figure", bx(0, 0, 10, 10));
    let b = det("caption", bx(0, 20, 10, 30));
    let out = deduplicate(vec![a, b], half(), &vec![]);
    assert_eq!(out[0].label, "figure");
    assert_eq!(out[1].label, "caption");
}
