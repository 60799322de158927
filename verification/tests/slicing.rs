use factory_plan::catalog::Item;
use factory_plan::flow::Flow;
use factory_plan::rate::{machines_for, scale_up};
use factory_plan::slicing::{chop, fill_machine, slice_flows, sort_ascending};
use factory_plan::verify::is_out_of_step;

fn flow(target: usize, rate: u64) -> Flow {
    Flow { source: 9, target, item: Item::Wire, rate }
}

fn rates(flows: &[Flow]) -> Vec<(usize, u64)> {
    flows.iter().map(|f| (f.target, f.rate)).collect()
}

#[test]
fn chop_cuts_full_pieces_first() {
    let mut out = vec![flow(0, 1)];
    chop(flow(1, 40), 15, &mut out);
    assert_eq!(rates(&out), vec![(0, 1), (1, 15), (1, 15), (1, 10)]);
    let mut out = Vec::new();
    chop(flow(1, 30), 15, &mut out);
    assert_eq!(rates(&out), vec![(1, 15), (1, 15)]);
    chop(flow(2, 15), 15, &mut out);
    chop(flow(3, 0), 15, &mut out);
    assert_eq!(rates(&out), vec![(1, 15), (1, 15), (2, 15)]);
    assert!(out.iter().all(|f| f.source == 9 && f.item == Item::Wire));
}

#[test]
fn chop_without_capacity_keeps_the_flow() {
    let mut out = Vec::new();
    chop(flow(1, 40), 0, &mut out);
    chop(flow(2, 0), 0, &mut out);
    assert_eq!(rates(&out), vec![(1, 40)]);
}

#[test]
fn slice_flows_keeps_the_order() {
    let pieces = slice_flows(&vec![flow(1, 20), flow(2, 7), flow(3, 31)], 15);
    assert_eq!(rates(&pieces), vec![(1, 15), (1, 5), (2, 7), (3, 15), (3, 15), (3, 1)]);
    assert_eq!(pieces.iter().map(|f| f.rate).sum::<u64>(), 58);
    assert!(slice_flows(&vec![], 15).is_empty());
}

#[test]
fn sort_ascending_is_stable() {
    let sorted = sort_ascending(&vec![flow(1, 15), flow(2, 5), flow(3, 15), flow(4, 7), flow(5, 5)]);
    assert_eq!(rates(&sorted), vec![(2, 5), (5, 5), (4, 7), (1, 15), (3, 15)]);
    assert!(sort_ascending(&vec![]).is_empty());
}

#[test]
fn fill_machine_takes_the_largest_first() {
    let mut stack = vec![flow(1, 5), flow(2, 8), flow(3, 15)];
    let (taken, room) = fill_machine(&mut stack, 15);
    assert_eq!(rates(&taken), vec![(3, 15)]);
    assert_eq!(room, 0);
    assert_eq!(rates(&stack), vec![(1, 5), (2, 8)]);
    let (taken, room) = fill_machine(&mut stack, 15);
    assert_eq!(rates(&taken), vec![(2, 8), (1, 5)]);
    assert_eq!(room, 2);
    assert!(stack.is_empty());
    let (taken, room) = fill_machine(&mut stack, 15);
    assert!(taken.is_empty());
    assert_eq!(room, 15);
}

#[test]
fn fill_machine_cuts_what_does_not_fit() {
    let mut stack = vec![flow(1, 5), flow(2, 8), flow(3, 9)];
    let (taken, room) = fill_machine(&mut stack, 12);
    assert_eq!(rates(&taken), vec![(3, 9), (2, 3)]);
    assert_eq!(room, 0);
    assert_eq!(rates(&stack), vec![(1, 5), (2, 5)]);
    let (taken, room) = fill_machine(&mut stack, 0);
    assert!(taken.is_empty());
    assert_eq!(room, 0);
    assert_eq!(stack.len(), 2);
}

#[test]
fn scale_up_rounds_up() {
    assert_eq!(scale_up(60, 15, 15), Some(60));
    assert_eq!(scale_up(100, 15, 90), Some(17));
    assert_eq!(scale_up(90, 15, 90), Some(15));
    assert_eq!(scale_up(1, 1, 1000), Some(1));
    assert_eq!(scale_up(0, 15, 90), Some(0));
    assert_eq!(scale_up(7, 0, 90), Some(0));
    assert_eq!(scale_up(u64::MAX, 1, 1), Some(u64::MAX));
    assert_eq!(scale_up(u64::MAX, 2, 1), None);
    assert_eq!(scale_up(u64::MAX, u64::MAX, u64::MAX), Some(u64::MAX));
}

#[test]
fn machines_for_rounds_up() {
    assert_eq!(machines_for(60, 15), 4);
    assert_eq!(machines_for(61, 15), 5);
    assert_eq!(machines_for(16, 15), 2);
    assert_eq!(machines_for(15, 15), 1);
    assert_eq!(machines_for(0, 15), 0);
    assert_eq!(machines_for(1 << 100, 1), 1 << 100);
}

#[test]
fn out_of_step_compares_crosswise() {
    // 10 of 20 and 30 of 60: both at one half.
    assert!(!is_out_of_step(10, 20, 30, 60, 0));
    // 10 of 20 and 31 of 60: off by one unit of the second input.
    assert!(is_out_of_step(10, 20, 31, 60, 0));
    assert!(!is_out_of_step(10, 20, 31, 60, 1));
    assert!(is_out_of_step(10, 20, 34, 60, 1));
    assert!(is_out_of_step(34, 60, 10, 20, 1));
    assert!(!is_out_of_step(0, 5, 0, 7, 0));
    assert!(!is_out_of_step(u64::MAX, u64::MAX, u64::MAX, u64::MAX, 0));
    assert!(!is_out_of_step(u64::MAX, 1, 0, u64::MAX, u64::MAX));
    assert!(is_out_of_step(u64::MAX, 1, 0, u64::MAX, u64::MAX - 1));
}
