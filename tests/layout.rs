use flexlayout::geometry::{
    arrange_along_axis_range, arrange_cross_axis_range, calc_along_axis, calc_cross_axis,
};
use flexlayout::{Alignment, Context, Fin, Id, Item, ItemNotFound, Layout, Scalar};

const FILL: Alignment = Alignment { front: true, back: true };

fn fin(d: usize) -> Fin<2> {
    Fin::try_from(d).unwrap()
}

fn rect(ctx: &Context<2>, id: Id) -> ([Scalar; 2], [Scalar; 2]) {
    let r = ctx.item_rect_err(id).unwrap();
    (r.position, r.size)
}

fn leaf(ctx: &mut Context<2>, w: Scalar, h: Option<Scalar>) -> Id {
    *ctx.item_new_mut(|item: &mut Item<2>| {
        item.size = [Some(w), h];
    })
}

/// A fixed 100x50 root holding a row that fills it, with leaves of width 20
/// and 30; returns (root, row, a, b).
fn row_scene(front: bool, back: bool) -> (Context<2>, Id, Id, Id, Id) {
    let mut ctx = Context::<2>::new();
    let root = *ctx.item_new_mut(|item: &mut Item<2>| {
        item.size = [Some(100), Some(50)];
    });
    let row = *ctx.item_new_mut(|item: &mut Item<2>| {
        item.flags.as_parent.layout = Layout::Flex(fin(0));
        item.flags.as_parent.alignment_along_axis = Alignment { front, back };
        item.flags.as_child.alignment_cross_axis = [FILL, FILL];
    });
    ctx.push_back(root, row).unwrap();
    let a = leaf(&mut ctx, 20, None);
    let b = leaf(&mut ctx, 30, None);
    ctx.push_back(row, a).unwrap();
    ctx.push_back(row, b).unwrap();
    (ctx, root, row, a, b)
}

#[test]
fn end_to_end_row_start() {
    let (mut ctx, root, row, a, b) = row_scene(true, false);
    ctx.layout_item_recursively(root).unwrap();
    assert_eq!(rect(&ctx, root), ([0, 0], [100, 50]));
    assert_eq!(rect(&ctx, row), ([0, 0], [100, 50]));
    assert_eq!(rect(&ctx, a), ([0, 0], [20, 0]));
    assert_eq!(rect(&ctx, b), ([20, 0], [30, 0]));
}

#[test]
fn end_to_end_row_justify() {
    let (mut ctx, root, row, a, b) = row_scene(true, true);
    ctx.layout_item_recursively(root).unwrap();
    assert_eq!(rect(&ctx, row), ([0, 0], [100, 50]));
    assert_eq!(rect(&ctx, a).0[0], 0);
    assert_eq!(rect(&ctx, b).0[0], 70);
    assert_eq!(rect(&ctx, b).1[0], 30);
}

#[test]
fn end_alignment_puts_free_space_first() {
    let (mut ctx, root, _row, a, b) = row_scene(false, true);
    ctx.layout_item_recursively(root).unwrap();
    assert_eq!(rect(&ctx, a).0[0], 50);
    assert_eq!(rect(&ctx, b).0[0], 70);
}

#[test]
fn center_alignment_splits_free_space() {
    let (mut ctx, root, _row, a, b) = row_scene(false, false);
    ctx.layout_item_recursively(root).unwrap();
    assert_eq!(rect(&ctx, a).0[0], 25);
    assert_eq!(rect(&ctx, b).0[0], 45);
}

#[test]
fn center_single_child_sits_at_half_the_free_space() {
    let mut ctx = Context::<2>::new();
    let row = *ctx.item_new_mut(|item: &mut Item<2>| {
        item.size = [Some(100), Some(10)];
        item.flags.as_parent.layout = Layout::Flex(fin(0));
        item.flags.as_parent.alignment_along_axis = Alignment { front: false, back: false };
    });
    let a = leaf(&mut ctx, 40, Some(10));
    ctx.push_back(row, a).unwrap();
    ctx.layout_item_recursively(row).unwrap();
    assert_eq!(rect(&ctx, a).0[0], 30);
}

#[test]
fn explicit_size_is_kept_regardless_of_children() {
    let mut ctx = Context::<2>::new();
    let root = *ctx.item_new_mut(|item: &mut Item<2>| {
        item.size = [Some(30), None];
        item.flags.as_parent.layout = Layout::Flex(fin(0));
    });
    let a = leaf(&mut ctx, 25, Some(7));
    let b = leaf(&mut ctx, 25, Some(9));
    ctx.push_back(root, a).unwrap();
    ctx.push_back(root, b).unwrap();
    ctx.layout_item_recursively(root).unwrap();
    // width pinned at 30 although the children need 50; height measured
    assert_eq!(rect(&ctx, root).1, [30, 9]);
}

#[test]
fn oversized_child_is_clamped_by_its_parent() {
    let mut ctx = Context::<2>::new();
    let root = *ctx.item_new_mut(|item: &mut Item<2>| {
        item.size = [Some(100), Some(100)];
    });
    let a = leaf(&mut ctx, 200, Some(40));
    ctx.push_back(root, a).unwrap();
    ctx.layout_item_recursively(root).unwrap();
    assert_eq!(rect(&ctx, a), ([0, 0], [100, 40]));
}

#[test]
fn margins_collapse_between_siblings() {
    let mut ctx = Context::<2>::new();
    let row = *ctx.item_new_mut(|item: &mut Item<2>| {
        item.size = [Some(200), Some(20)];
        item.flags.as_parent.layout = Layout::Flex(fin(0));
    });
    let a = *ctx.item_new_mut(|item: &mut Item<2>| {
        item.size = [Some(20), Some(20)];
        item.margins[0].start = 3;
        item.margins[0].end = 10;
    });
    let b = *ctx.item_new_mut(|item: &mut Item<2>| {
        item.size = [Some(20), Some(20)];
        item.margins[0].start = 4;
    });
    ctx.push_back(row, a).unwrap();
    ctx.push_back(row, b).unwrap();
    ctx.layout_item_recursively(row).unwrap();
    assert_eq!(rect(&ctx, a).0[0], 3);
    // 10 apart, not 14
    assert_eq!(rect(&ctx, b).0[0], 3 + 20 + 10);
}

#[test]
fn measured_width_adds_margins_along_the_axis() {
    let mut ctx = Context::<2>::new();
    let row = *ctx.item_new_mut(|item: &mut Item<2>| {
        item.flags.as_parent.layout = Layout::Flex(fin(0));
    });
    let a = *ctx.item_new_mut(|item: &mut Item<2>| {
        item.size = [Some(20), Some(5)];
        item.margins[0].end = 10;
    });
    let b = *ctx.item_new_mut(|item: &mut Item<2>| {
        item.size = [Some(20), Some(6)];
        item.margins[0].start = 4;
    });
    ctx.push_back(row, a).unwrap();
    ctx.push_back(row, b).unwrap();
    ctx.layout_item_recursively(row).unwrap();
    // (max(0, 0) + 20 + 10) + (max(10, 4) + 20 + 0)
    assert_eq!(rect(&ctx, row).1, [60, 6]);
}

#[test]
fn justify_chops_nine_over_two_gaps() {
    let mut gaps: Vec<i64> = vec![1, 2, 3];
    flexlayout::enlarge_gaps_inbetween(&mut gaps, 9);
    assert_eq!(gaps, vec![1, 2 + 5, 3 + 4]);
}

#[test]
fn justify_chops_eighteen_over_four_gaps() {
    let mut gaps: Vec<i64> = vec![0, 0, 0, 0, 0];
    flexlayout::enlarge_gaps_inbetween(&mut gaps, 18);
    assert_eq!(gaps, vec![0, 5, 5, 4, 4]);
}

#[test]
fn justify_with_one_child_changes_nothing() {
    let mut gaps: Vec<i64> = vec![7];
    flexlayout::enlarge_gaps_inbetween(&mut gaps, 18);
    assert_eq!(gaps, vec![7]);
    let mut none: Vec<i64> = vec![];
    flexlayout::enlarge_gaps_inbetween(&mut none, 18);
    assert!(none.is_empty());
}

#[test]
fn justify_spreads_the_remainder_first() {
    let mut ctx = Context::<2>::new();
    let row = *ctx.item_new_mut(|item: &mut Item<2>| {
        item.size = [Some(100), Some(10)];
        item.flags.as_parent.layout = Layout::Flex(fin(0));
        item.flags.as_parent.alignment_along_axis = FILL;
    });
    let ids: Vec<Id> = (0..4).map(|_| leaf(&mut ctx, 20, Some(10))).collect();
    for &id in &ids {
        ctx.push_back(row, id).unwrap();
    }
    ctx.layout_item_recursively(row).unwrap();
    // free space 20 over 3 gaps: 7, 7, 6
    let xs: Vec<Scalar> = ids.iter().map(|&id| rect(&ctx, id).0[0]).collect();
    assert_eq!(xs, vec![0, 27, 54, 80]);
}

#[test]
fn fill_takes_the_space_between_margins() {
    let mut ctx = Context::<2>::new();
    let root = *ctx.item_new_mut(|item: &mut Item<2>| {
        item.size = [Some(100), Some(100)];
    });
    let a = *ctx.item_new_mut(|item: &mut Item<2>| {
        item.size = [Some(200), Some(10)];
        item.margins[0].start = 10;
        item.margins[0].end = 5;
        item.flags.as_child.alignment_cross_axis[0] = FILL;
    });
    ctx.push_back(root, a).unwrap();
    ctx.layout_item_recursively(root).unwrap();
    assert_eq!(rect(&ctx, a).0[0], 10);
    assert_eq!(rect(&ctx, a).1[0], 85);
}

#[test]
fn cross_alignments_in_a_fixed_parent() {
    let mut ctx = Context::<2>::new();
    let root = *ctx.item_new_mut(|item: &mut Item<2>| {
        item.size = [Some(100), Some(100)];
    });
    let end = *ctx.item_new_mut(|item: &mut Item<2>| {
        item.size = [Some(20), Some(10)];
        item.margins[0].end = 5;
        item.flags.as_child.alignment_cross_axis[0] = Alignment { front: false, back: true };
    });
    let center = *ctx.item_new_mut(|item: &mut Item<2>| {
        item.size = [Some(20), Some(10)];
        item.flags.as_child.alignment_cross_axis[0] = Alignment { front: false, back: false };
    });
    ctx.push_back(root, end).unwrap();
    ctx.push_back(root, center).unwrap();
    ctx.layout_item_recursively(root).unwrap();
    assert_eq!(rect(&ctx, end).0[0], 75);
    assert_eq!(rect(&ctx, center).0[0], 40);
}

#[test]
fn wrapped_lines_stack_without_gaps() {
    let mut ctx = Context::<2>::new();
    let row = *ctx.item_new_mut(|item: &mut Item<2>| {
        item.flags.as_parent.layout = Layout::Flex(fin(0));
    });
    let a = leaf(&mut ctx, 10, Some(8));
    let b = leaf(&mut ctx, 10, Some(5));
    let c = *ctx.item_new_mut(|item: &mut Item<2>| {
        item.size = [Some(10), Some(12)];
        item.flags.as_child.wrap_me = true;
    });
    for id in [a, b, c] {
        ctx.push_back(row, id).unwrap();
    }
    ctx.layout_item_recursively(row).unwrap();
    // lines 8 and 12 thick
    assert_eq!(rect(&ctx, row).1[1], 20);
    assert_eq!(rect(&ctx, a).0[1], 0);
    assert_eq!(rect(&ctx, b).0[1], 0);
    assert_eq!(rect(&ctx, c).0[1], 8);
    assert_eq!(rect(&ctx, c).0[0], 0);
    // the row is as long as its longest line
    assert_eq!(rect(&ctx, row).1[0], 20);
}

#[test]
fn auto_wrap_breaks_an_overflowing_line() {
    let mut ctx = Context::<2>::new();
    let row = *ctx.item_new_mut(|item: &mut Item<2>| {
        item.size = [Some(50), None];
        item.flags.as_parent.layout = Layout::Flex(fin(0));
    });
    let ids: Vec<Id> = (0..3).map(|_| leaf(&mut ctx, 20, Some(10))).collect();
    for &id in &ids {
        ctx.push_back(row, id).unwrap();
    }
    ctx.layout_item_recursively(row).unwrap();
    assert_eq!(rect(&ctx, ids[0]).0[0], 0);
    assert_eq!(rect(&ctx, ids[1]).0[0], 20);
    assert_eq!(rect(&ctx, ids[2]).0[0], 0);
}

#[test]
fn without_auto_wrap_the_line_overflows() {
    let mut ctx = Context::<2>::new();
    let row = *ctx.item_new_mut(|item: &mut Item<2>| {
        item.size = [Some(50), None];
        item.flags.as_parent.layout = Layout::Flex(fin(0));
        item.flags.as_parent.auto_wrap = false;
    });
    let ids: Vec<Id> = (0..3).map(|_| leaf(&mut ctx, 20, Some(10))).collect();
    for &id in &ids {
        ctx.push_back(row, id).unwrap();
    }
    ctx.layout_item_recursively(row).unwrap();
    assert_eq!(rect(&ctx, ids[2]).0[0], 40);
}

#[test]
fn layout_twice_gives_the_same_geometry() {
    let (mut ctx, root, row, a, b) = row_scene(false, false);
    ctx.layout_item_recursively(root).unwrap();
    let first: Vec<_> = [root, row, a, b].iter().map(|&id| rect(&ctx, id)).collect();
    ctx.layout_item_recursively(root).unwrap();
    let second: Vec<_> = [root, row, a, b].iter().map(|&id| rect(&ctx, id)).collect();
    assert_eq!(first, second);
}

#[test]
fn sizes_saturate_at_the_scalar_range() {
    let mut ctx = Context::<2>::new();
    let row = *ctx.item_new_mut(|item: &mut Item<2>| {
        item.flags.as_parent.layout = Layout::Flex(fin(0));
    });
    let a = leaf(&mut ctx, 30000, Some(1));
    let b = leaf(&mut ctx, 30000, Some(1));
    ctx.push_back(row, a).unwrap();
    ctx.push_back(row, b).unwrap();
    ctx.layout_item_recursively(row).unwrap();
    assert_eq!(rect(&ctx, row).1[0], i16::MAX);
}

#[test]
fn layout_of_an_unknown_item_fails() {
    let mut ctx = Context::<2>::new();
    let a = *ctx.item_new();
    let mut other = Context::<2>::new();
    assert_eq!(other.layout_item_recursively(a), Err(ItemNotFound(a)));
    assert!(ctx.layout_item_recursively(a).is_ok());
}

#[test]
fn identifiers_count_up_from_one() {
    let mut ctx = Context::<2>::new();
    assert_eq!(ctx.items_count(), 0);
    let a = *ctx.item_new();
    let b = *ctx.item_new();
    assert_eq!(a.get(), 1);
    assert_eq!(b.get(), 2);
    assert!(a < b);
    assert_eq!(ctx.items_count(), 2);
}

#[test]
fn new_items_have_the_default_configuration() {
    let mut ctx = Context::<3>::new();
    let a = *ctx.item_new();
    let item = ctx.item(a).unwrap();
    assert!(matches!(item.flags.as_parent.layout, Layout::Fixed));
    assert!(item.flags.as_parent.allow_wrap);
    assert!(item.flags.as_parent.auto_wrap);
    assert!(item.flags.as_parent.alignment_along_axis.front);
    assert!(!item.flags.as_parent.alignment_along_axis.back);
    assert!(!item.flags.as_child.wrap_me);
    assert!(!item.flags.extra.inserted);
    assert_eq!(item.size, [None, None, None]);
    let r = ctx.item_rect_err(a).unwrap();
    assert_eq!(r.position, [0, 0, 0]);
    assert_eq!(r.size, [0, 0, 0]);
}

#[test]
fn accessors_report_unknown_items() {
    let mut ctx = Context::<2>::new();
    let a = *ctx.item_new();
    let mut other = Context::<2>::new();
    let b = *other.item_new();
    let _ = other.item_new();
    let c = *other.item_new_mut(|_item: &mut Item<2>| {});
    assert!(ctx.item(c).is_none());
    assert!(ctx.item_mut(c).is_none());
    assert_eq!(ctx.item_err(c).err(), Some(ItemNotFound(c)));
    assert_eq!(ctx.item_mut_err(c).err(), Some(ItemNotFound(c)));
    assert_eq!(ctx.item_rect_err(c).err(), Some(ItemNotFound(c)));
    assert_eq!(ctx.item_rect_mut_err(c).err(), Some(ItemNotFound(c)));
    assert!(ctx.item_mut_last_child(c).is_err());
    assert!(ctx.item(a).is_some());
    assert!(ctx.item(b).is_some());
}

#[test]
fn item_mut_changes_the_configuration() {
    let mut ctx = Context::<2>::new();
    let a = *ctx.item_new();
    ctx.item_mut(a).unwrap().size[0] = Some(12);
    ctx.item_mut_err(a).unwrap().size[1] = Some(34);
    ctx.layout_item_recursively(a).unwrap();
    assert_eq!(rect(&ctx, a).1, [12, 34]);
    ctx.item_rect_mut_err(a).unwrap().position = [5, 6];
    assert_eq!(rect(&ctx, a).0, [5, 6]);
}

#[test]
fn tree_edits_report_unknown_items() {
    let mut ctx = Context::<2>::new();
    let a = *ctx.item_new();
    let missing = Id::clone(&a);
    let mut other = Context::<2>::new();
    let _ = other.item_new();
    let far = *other.item_new();
    assert_eq!(ctx.push_back(a, far), Err(ItemNotFound(far)));
    assert_eq!(ctx.push_back(far, a), Err(ItemNotFound(far)));
    assert_eq!(ctx.push_front(a, far), Err(ItemNotFound(far)));
    assert_eq!(ctx.push_front(far, a), Err(ItemNotFound(far)));
    assert_eq!(ctx.insert_after(far, a), Err(ItemNotFound(far)));
    assert_eq!(ctx.insert_after(missing, far), Err(ItemNotFound(far)));
}

#[test]
fn push_front_insert_after_and_push_back_order_children() {
    let mut ctx = Context::<2>::new();
    let row = *ctx.item_new_mut(|item: &mut Item<2>| {
        item.size = [Some(100), Some(10)];
        item.flags.as_parent.layout = Layout::Flex(fin(0));
    });
    let a = leaf(&mut ctx, 10, Some(10));
    let b = leaf(&mut ctx, 20, Some(10));
    let c = leaf(&mut ctx, 30, Some(10));
    let d = leaf(&mut ctx, 40, Some(10));
    ctx.push_front(row, c).unwrap();
    ctx.push_front(row, a).unwrap();
    ctx.insert_after(a, b).unwrap();
    ctx.push_back(row, d).unwrap();
    assert!(ctx.item(b).unwrap().flags.extra.inserted);
    assert!(!ctx.item(c).unwrap().flags.extra.inserted);
    ctx.layout_item_recursively(row).unwrap();
    // order a, b, c, d, filling the 100 wide row exactly
    assert_eq!(rect(&ctx, a).0, [0, 0]);
    assert_eq!(rect(&ctx, b).0, [10, 0]);
    assert_eq!(rect(&ctx, c).0, [30, 0]);
    assert_eq!(rect(&ctx, d).0, [60, 0]);
}

#[test]
fn last_child_is_found_by_walking_the_siblings() {
    let mut ctx = Context::<2>::new();
    let p = *ctx.item_new();
    assert!(ctx.item_mut_last_child(p).unwrap().is_none());
    let a = *ctx.item_new();
    let b = *ctx.item_new();
    ctx.push_back(p, a).unwrap();
    ctx.push_back(p, b).unwrap();
    ctx.item_mut_last_child(p).unwrap().unwrap().size[0] = Some(9);
    assert_eq!(ctx.item(b).unwrap().size[0], Some(9));
    assert_eq!(ctx.item(a).unwrap().size[0], None);
}

#[test]
fn dimension_indices_are_checked() {
    assert!(Fin::<2>::try_from(2).is_err());
    assert_eq!(Fin::<2>::try_from(1).unwrap().into_usize(), 1);
    assert_eq!(fin(0).into_usize(), 0);
}

#[test]
fn three_dimensions_lay_out_independently() {
    let mut ctx = Context::<3>::new();
    let root = *ctx.item_new_mut(|item: &mut Item<3>| {
        item.size = [Some(10), Some(20), Some(30)];
        item.flags.as_parent.layout = Layout::Flex(Fin::try_from(2).unwrap());
    });
    let a = *ctx.item_new_mut(|item: &mut Item<3>| {
        item.size = [Some(4), Some(5), Some(6)];
    });
    let b = *ctx.item_new_mut(|item: &mut Item<3>| {
        item.size = [Some(4), Some(5), Some(7)];
    });
    ctx.push_back(root, a).unwrap();
    ctx.push_back(root, b).unwrap();
    ctx.layout_item_recursively(root).unwrap();
    let rb = ctx.item_rect_err(b).unwrap();
    assert_eq!(rb.position, [0, 0, 6]);
    assert_eq!(rb.size, [4, 5, 7]);
}

fn ext(start: Scalar, extent: Scalar, end: Scalar, wrap_me: bool) -> flexlayout::ExtentAndMargins {
    flexlayout::ExtentAndMargins {
        margin_start: start,
        extent,
        margin_end: end,
        wrap_me,
        alignment: Alignment { front: true, back: false },
    }
}

#[test]
fn line_measures_follow_the_margin_rules() {
    let e = vec![ext(1, 10, 2, false), ext(3, 20, 4, false), ext(0, 5, 0, true)];
    // along: (1 + 10 + 2) + (max(2, 3) + 20 + 4) = 40, then a new line of 5
    assert_eq!(calc_along_axis(&e, true), 40);
    assert_eq!(calc_along_axis(&e, false), 40 + 4 + 5);
    // across: thickest of the first line is 27, the second line adds 5
    assert_eq!(calc_cross_axis(&e, true), 32);
    assert_eq!(calc_cross_axis(&e, false), 27);
    assert_eq!(calc_cross_axis(&vec![], true), 0);
}

#[test]
fn line_positions_and_bands() {
    let e = vec![ext(0, 10, 5, false), ext(2, 10, 0, false), ext(0, 10, 0, true)];
    let p = flexlayout::LineParams {
        space: 40,
        offset: 100,
        alignment: Alignment { front: true, back: false },
        allow_wrap: true,
        auto_wrap: false,
    };
    assert_eq!(arrange_along_axis_range(&e, p), vec![100, 115, 100]);
    // bands 15 and 10 deep, each child at the start of its band
    let placed = arrange_cross_axis_range(&e, true, 50, 7);
    assert_eq!(placed, vec![(7, 10), (9, 10), (22, 10)]);
}
