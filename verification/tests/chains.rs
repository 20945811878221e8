use rapidmesh_tet::chains::{category_of, child_categories, Category, SegmentChains, MAX_SPLITS_PER_SEGMENT};

fn two_segments() -> SegmentChains {
    SegmentChains::new(&[(0, 1), (1, 2)], &[true, false, true])
}

#[test]
fn new_chains_hold_the_segment_ends() {
    let c = two_segments();
    assert_eq!(c.segment_count(), 2);
    assert_eq!(c.chain(0), vec![0, 1]);
    assert_eq!(c.chain(1), vec![1, 2]);
    assert_eq!(c.piece_category(0, 0), Category::OneAcute { at_end: false });
    assert_eq!(c.piece_category(1, 0), Category::OneAcute { at_end: true });
    assert!(c.split_budget_left(0));
}

#[test]
fn categories_from_acute_ends() {
    assert_eq!(category_of(false, false), Category::Plain);
    assert_eq!(category_of(true, false), Category::OneAcute { at_end: false });
    assert_eq!(category_of(false, true), Category::OneAcute { at_end: true });
    assert_eq!(category_of(true, true), Category::TwoAcute);
}

#[test]
fn two_acute_piece_splits_into_one_acute_halves() {
    assert_eq!(
        child_categories(Category::TwoAcute),
        (Category::OneAcute { at_end: false }, Category::OneAcute { at_end: true })
    );
    assert_eq!(child_categories(Category::Plain), (Category::Plain, Category::Plain));
    assert_eq!(
        child_categories(Category::OneAcute { at_end: true }),
        (Category::OneAcute { at_end: true }, Category::OneAcute { at_end: true })
    );
}

#[test]
fn split_inserts_between_the_piece_ends() {
    let mut c = SegmentChains::new(&[(4, 9)], &[false; 10]);
    c.split_piece(0, 0, 7);
    assert_eq!(c.chain(0), vec![4, 7, 9]);
    c.split_piece(0, 0, 5);
    assert_eq!(c.chain(0), vec![4, 5, 7, 9]);
    assert_eq!(c.piece_category(0, 2), Category::Plain);
}

#[test]
fn split_two_acute_segment_passes_categories() {
    let mut c = SegmentChains::new(&[(0, 1)], &[true, true]);
    assert_eq!(c.piece_category(0, 0), Category::TwoAcute);
    c.split_piece(0, 0, 2);
    assert_eq!(c.piece_category(0, 0), Category::OneAcute { at_end: false });
    assert_eq!(c.piece_category(0, 1), Category::OneAcute { at_end: true });
}

#[test]
fn find_piece_in_either_order_and_after_a_split() {
    let mut c = SegmentChains::new(&[(4, 9)], &[false; 10]);
    assert_eq!(c.find_piece(0, 9, 4), Some(0));
    c.split_piece(0, 0, 7);
    assert_eq!(c.find_piece(0, 4, 9), None);
    assert_eq!(c.find_piece(0, 7, 9), Some(1));
}

#[test]
fn next_missing_scans_in_order() {
    let mut c = SegmentChains::new(&[(0, 1), (2, 3), (4, 5)], &[false; 6]);
    c.split_piece(1, 0, 6);
    // chains: [0, 1], [2, 6, 3], [4, 5]; edges present: 0-1, 2-6, 4-5.
    let present = |a: usize, b: usize| {
        let (x, y) = if a < b { (a, b) } else { (b, a) };
        matches!((x, y), (0, 1) | (2, 6) | (4, 5))
    };
    assert_eq!(c.next_missing(0, 0, &present), Some((1, 1)));
    assert_eq!(c.next_missing(1, 2, &present), None);
    assert_eq!(c.next_missing(2, 0, &present), None);
    let none = |_a: usize, _b: usize| false;
    assert_eq!(c.next_missing(1, 1, &none), Some((1, 1)));
    assert_eq!(c.next_missing(7, 0, &none), None);
}

#[test]
fn split_budget_is_bounded() {
    assert_eq!(MAX_SPLITS_PER_SEGMENT, 100_000);
    let mut c = SegmentChains::new(&[(0, 1)], &[false, false]);
    for k in 0..5 {
        c.split_piece(0, 0, 10 + k);
    }
    assert!(c.split_budget_left(0));
    assert_eq!(c.chain(0), vec![0, 14, 13, 12, 11, 10, 1]);
}
