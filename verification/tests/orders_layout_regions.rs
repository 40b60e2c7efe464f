use convinterp::layout::{c_order_strides, flat_offset, pad_columns};
use convinterp::orders::{check_order, OrderError};
use convinterp::regions::{integral_axes, plan_regions, region_tail_offset, tails_fit, TailsTooLarge};

#[test]
fn orders_within_the_kernel_are_accepted() {
    assert_eq!(check_order(0, 3, 2), Ok(0));
    assert_eq!(check_order(3, 3, 2), Ok(0));
    assert_eq!(check_order(-1, 3, 2), Ok(1));
    assert_eq!(check_order(-2, 3, 2), Ok(2));
}

#[test]
fn orders_beyond_the_kernel_are_refused() {
    assert_eq!(check_order(4, 3, 2), Err(OrderError::DerivativeTooHigh));
    assert_eq!(check_order(-3, 3, 2), Err(OrderError::IntegralTooHigh));
    assert_eq!(check_order(i32::MIN, 3, 2), Err(OrderError::IntegralTooHigh));
    // a kernel without derivatives or integrals
    assert_eq!(check_order(1, 0, 0), Err(OrderError::DerivativeTooHigh));
    assert_eq!(check_order(-1, 0, 0), Err(OrderError::IntegralTooHigh));
}

#[test]
fn c_order_strides_are_products_of_later_lengths() {
    assert_eq!(c_order_strides(&vec![4, 5, 6]), vec![30, 6, 1]);
    assert_eq!(c_order_strides(&vec![7]), vec![1]);
    assert_eq!(c_order_strides(&vec![2, 3]), vec![3, 1]);
}

#[test]
fn flat_offset_sums_index_times_stride() {
    let lens = vec![4, 5, 6];
    let strides = c_order_strides(&lens);
    assert_eq!(flat_offset(&vec![1, 2, 3], &strides, &lens), 45);
    assert_eq!(flat_offset(&vec![0, 0, 0], &strides, &lens), 0);
    // the last element is the last position of the flat vector
    assert_eq!(flat_offset(&vec![3, 4, 5], &strides, &lens), 119);
}

#[test]
fn padding_fills_rows_to_whole_blocks_of_four() {
    let rows = [1, 2, 3, 4, 5, 6, 7, 8, 9, 10];
    assert_eq!(pad_columns(&rows, 5, 0), vec![1, 2, 3, 4, 5, 0, 0, 0, 6, 7, 8, 9, 10, 0, 0, 0]);
    assert_eq!(pad_columns(&rows[..8], 4, 0), vec![1, 2, 3, 4, 5, 6, 7, 8]);
    assert_eq!(pad_columns(&rows[..4], 2, -1), vec![1, 2, -1, -1, 3, 4, -1, -1]);
    // a shorter last row is ignored
    assert_eq!(pad_columns(&rows[..7], 3, 0), vec![1, 2, 3, 0, 4, 5, 6, 0]);
}

#[test]
fn integral_axes_are_those_of_positive_order() {
    assert_eq!(integral_axes(&vec![0, 3, 0, 1]), vec![1, 3]);
    assert_eq!(integral_axes(&vec![0, 0]), Vec::<usize>::new());
}

#[test]
fn tails_fit_at_exactly_two_gib() {
    assert!(tails_fit(&vec![0, 0], 1000));
    // one integral axis of order 2: 2 values per coefficient, 16 bytes
    assert!(tails_fit(&vec![2], 134_217_728));
    assert!(!tails_fit(&vec![2], 134_217_729));
    // two of order 1: 3 values per coefficient, 24 bytes
    assert!(tails_fit(&vec![1, 1], 89_478_485));
    assert!(!tails_fit(&vec![1, 1], 89_478_486));
    assert!(!tails_fit(&vec![usize::MAX], 1));
    assert!(tails_fit(&vec![usize::MAX], 0));
}

#[test]
fn regions_are_the_nonempty_sets_of_integral_axes() {
    let plans = plan_regions(&vec![1, 0, 2], 10).unwrap();
    assert_eq!(plans.len(), 3);
    assert_eq!(plans[0].axes, vec![0]);
    assert_eq!(plans[0].moments, 1);
    assert_eq!(plans[0].in_region, vec![true, false, false]);
    assert_eq!(plans[1].axes, vec![2]);
    assert_eq!(plans[1].moments, 2);
    assert_eq!(plans[1].in_region, vec![false, false, true]);
    assert_eq!(plans[2].axes, vec![0, 2]);
    assert_eq!(plans[2].moments, 2);
    assert_eq!(plans[2].in_region, vec![true, false, true]);
}

#[test]
fn three_integral_axes_give_seven_regions() {
    let plans = plan_regions(&vec![2, 3, 1], 8).unwrap();
    assert_eq!(plans.len(), 7);
    let axes: Vec<Vec<usize>> = plans.iter().map(|p| p.axes.clone()).collect();
    assert_eq!(
        axes,
        vec![vec![0], vec![1], vec![0, 1], vec![2], vec![0, 2], vec![1, 2], vec![0, 1, 2]]
    );
    let moments: Vec<usize> = plans.iter().map(|p| p.moments).collect();
    assert_eq!(moments, vec![2, 3, 6, 1, 2, 3, 6]);
    // together the tail values of one coefficient: (1 + 2)·(1 + 3)·(1 + 1) − 1
    assert_eq!(moments.iter().sum::<usize>(), 23);
}

#[test]
fn no_integral_axes_no_regions() {
    assert_eq!(plan_regions(&vec![0, 0, 0], 1_000_000_000).unwrap().len(), 0);
}

#[test]
fn regions_too_large_for_memory_are_refused() {
    assert_eq!(plan_regions(&vec![2], 134_217_729).err(), Some(TailsTooLarge));
    assert!(plan_regions(&vec![2], 134_217_728).is_ok());
}

#[test]
fn region_tail_sits_one_step_left_along_the_region() {
    let lens = vec![4, 5, 6];
    let strides = c_order_strides(&lens);
    // region of axes 0 and 2: one step back along both
    assert_eq!(
        region_tail_offset(&vec![2, 3, 1], &vec![true, false, true], &strides, &lens),
        Some(30 + 18)
    );
    // region of axis 1 only
    assert_eq!(
        region_tail_offset(&vec![2, 3, 1], &vec![false, true, false], &strides, &lens),
        Some(60 + 12 + 1)
    );
    // no coefficient left of the stencil along axis 2: the region contributes nothing
    assert_eq!(region_tail_offset(&vec![2, 3, 0], &vec![true, false, true], &strides, &lens), None);
    // a start of 0 along an axis outside the region does not matter
    assert_eq!(
        region_tail_offset(&vec![0, 3, 1], &vec![false, false, true], &strides, &lens),
        Some(18)
    );
}
