use tape_sort::record::{Point, Triangle};
use tape_sort::sorter::{distribute, is_sorted, merge, sort, SortError};
use tape_sort::tape::{Tape, TapeContext};

/// A triangle whose doubled area is exactly `k`: corners at the origin,
/// `(k, 0)` and `(0, 1)`.
fn tri(k: i32) -> Triangle {
    Triangle { a: Point { x: 0, y: 0 }, b: Point { x: k, y: 0 }, c: Point { x: 0, y: 1 } }
}

fn keys_of(tape: &Tape<Triangle>) -> Vec<i128> {
    tape.contents().iter().map(|t| t.doubled_area()).collect()
}

#[test]
fn example_scenario_page_four() {
    // page capacity 4, fan-in 2, the worked example input
    let mut ctx = TapeContext::new();
    let mut tape: Tape<Triangle> = Tape::new(&mut ctx, 4);
    for k in [5, 3, 3, 8, 1, 9, 2, 7] {
        tape.push(tri(k));
    }
    assert_eq!(tape.run_lengths().as_slice(), &[1, 3, 2, 2]);
    let info = sort(&mut tape, 2, &mut ctx).unwrap();
    assert_eq!(keys_of(&tape), vec![1, 2, 3, 3, 5, 7, 8, 9]);
    assert_eq!(tape.runs(), 1);
    // four natural runs need ceil(log2(4)) = 2 phases
    assert_eq!(info.number_of_phases, 2);
    assert_eq!(info.teor_number_of_phases, 2);
    // 4 * 8 records * 2 phases / 4 records per page
    assert_eq!(info.teor_disk_ops, 16);
}

#[test]
fn already_sorted_input_takes_zero_phases() {
    let mut ctx = TapeContext::new();
    let mut tape: Tape<Triangle> = Tape::new(&mut ctx, 4);
    for k in [1, 2, 3, 4] {
        tape.push(tri(k));
    }
    // one run of four records straight away
    assert_eq!(tape.run_lengths().as_slice(), &[4]);
    let before = keys_of(&tape);
    let info = sort(&mut tape, 2, &mut ctx).unwrap();
    assert_eq!(info.number_of_phases, 0);
    assert_eq!(info.disk_ops, 0);
    assert_eq!(info.teor_number_of_phases, 0);
    assert_eq!(info.teor_disk_ops, 0);
    assert_eq!(keys_of(&tape), before);
}

#[test]
fn reverse_sorted_input() {
    let mut ctx = TapeContext::new();
    let mut tape: Tape<Triangle> = Tape::new(&mut ctx, 3);
    for k in (0..20).rev() {
        tape.push(tri(k));
    }
    assert_eq!(tape.runs(), 20);
    let info = sort(&mut tape, 2, &mut ctx).unwrap();
    let keys = keys_of(&tape);
    let expected: Vec<i128> = (0..20).map(|k| k as i128).collect();
    assert_eq!(keys, expected);
    // 20 runs converge within ceil(log2(20)) = 5 phases
    assert!(info.number_of_phases <= 5);
    assert_eq!(info.teor_number_of_phases, 5);
}

#[test]
fn equal_keys_stay_together() {
    let mut ctx = TapeContext::new();
    let mut tape: Tape<Triangle> = Tape::new(&mut ctx, 2);
    for k in [4, 4, 1, 4, 1, 1] {
        tape.push(tri(k));
    }
    sort(&mut tape, 2, &mut ctx).unwrap();
    assert_eq!(keys_of(&tape), vec![1, 1, 1, 4, 4, 4]);
}

#[test]
fn higher_fan_in_sorts_too() {
    let mut ctx = TapeContext::new();
    let mut tape: Tape<Triangle> = Tape::new(&mut ctx, 4);
    for k in [9, 1, 8, 2, 7, 3, 6, 4, 5] {
        tape.push(tri(k));
    }
    sort(&mut tape, 4, &mut ctx).unwrap();
    assert_eq!(keys_of(&tape), vec![1, 2, 3, 4, 5, 6, 7, 8, 9]);
    assert!(is_sorted(&tape));
}

#[test]
fn fan_in_below_two_is_refused() {
    let mut ctx = TapeContext::new();
    let mut tape: Tape<Triangle> = Tape::new(&mut ctx, 4);
    tape.push(tri(1));
    assert_eq!(sort(&mut tape, 1, &mut ctx), Err(SortError::InvalidFanIn));
    assert_eq!(sort(&mut tape, 0, &mut ctx), Err(SortError::InvalidFanIn));
}

#[test]
fn empty_input_is_refused() {
    let mut ctx = TapeContext::new();
    let mut tape: Tape<Triangle> = Tape::new(&mut ctx, 4);
    assert_eq!(sort(&mut tape, 2, &mut ctx), Err(SortError::EmptyInput));
}

#[test]
fn single_record_sorts_immediately() {
    let mut ctx = TapeContext::new();
    let mut tape: Tape<Triangle> = Tape::new(&mut ctx, 4);
    tape.push(tri(7));
    let info = sort(&mut tape, 2, &mut ctx).unwrap();
    assert_eq!(info.number_of_phases, 0);
    assert_eq!(keys_of(&tape), vec![7]);
}

#[test]
fn resorting_is_idempotent() {
    let mut ctx = TapeContext::new();
    let mut tape: Tape<Triangle> = Tape::new(&mut ctx, 4);
    for k in [6, 2, 9, 2, 5] {
        tape.push(tri(k));
    }
    sort(&mut tape, 2, &mut ctx).unwrap();
    let once = keys_of(&tape);
    let info = sort(&mut tape, 2, &mut ctx).unwrap();
    assert_eq!(info.number_of_phases, 0);
    assert_eq!(info.disk_ops, 0);
    assert_eq!(keys_of(&tape), once);
}

#[test]
fn sequential_pass_costs_one_operation_per_page() {
    // 8 records at 4 per page: the write pass costs exactly ceil(8/4) = 2
    let mut ctx = TapeContext::new();
    let mut tape: Tape<Triangle> = Tape::new(&mut ctx, 4);
    for k in 0..8 {
        tape.push(tri(k));
    }
    tape.flush();
    assert_eq!(tape.disk_ops(), 2);
    // draining it back costs exactly two page reads more
    for _ in 0..8 {
        tape.next_record().unwrap();
    }
    assert!(tape.is_empty());
    assert_eq!(tape.disk_ops(), 4);
}

#[test]
fn short_last_page_costs_one_more() {
    // 9 records at 4 per page: ceil(9/4) = 3 writes
    let mut ctx = TapeContext::new();
    let mut tape: Tape<Triangle> = Tape::new(&mut ctx, 4);
    for k in 0..9 {
        tape.push(tri(k));
    }
    tape.flush();
    assert_eq!(tape.disk_ops(), 3);
}

#[test]
fn reading_past_the_end_is_exhausted() {
    let mut ctx = TapeContext::new();
    let mut tape: Tape<Triangle> = Tape::new(&mut ctx, 4);
    tape.push(tri(1));
    tape.flush();
    assert!(tape.next_record().is_ok());
    assert!(tape.next_record().is_err());
}

#[test]
fn view_does_not_advance() {
    let mut ctx = TapeContext::new();
    let mut tape: Tape<Triangle> = Tape::new(&mut ctx, 4);
    tape.push(tri(3));
    tape.push(tri(5));
    tape.flush();
    let ops_before = tape.disk_ops();
    assert_eq!(tape.view_record().unwrap().doubled_area(), 3);
    assert_eq!(tape.view_record().unwrap().doubled_area(), 3);
    assert_eq!(tape.disk_ops(), ops_before);
    assert_eq!(tape.next_record().unwrap().doubled_area(), 3);
    assert_eq!(tape.view_record().unwrap().doubled_area(), 5);
}

#[test]
fn clear_resets_everything() {
    let mut ctx = TapeContext::new();
    let mut tape: Tape<Triangle> = Tape::new(&mut ctx, 4);
    for k in [3, 1, 2] {
        tape.push(tri(k));
    }
    tape.flush();
    tape.clear();
    assert_eq!(tape.disk_ops(), 0);
    assert_eq!(tape.runs(), 0);
    assert!(tape.contents().is_empty());
}

#[test]
fn run_detection_uses_strict_descent() {
    // equal adjacent keys must not split a run
    let mut ctx = TapeContext::new();
    let mut tape: Tape<Triangle> = Tape::new(&mut ctx, 4);
    for k in [2, 2, 2, 1] {
        tape.push(tri(k));
    }
    assert_eq!(tape.run_lengths().as_slice(), &[3, 1]);
}

#[test]
fn larger_shuffled_sort() {
    let mut ctx = TapeContext::new();
    let mut tape: Tape<Triangle> = Tape::new(&mut ctx, 7);
    // a deterministic shuffle of 0..100
    let mut keys: Vec<i32> = Vec::new();
    let mut x: i64 = 1;
    for _ in 0..100 {
        x = (x * 48271) % 2147483647;
        keys.push((x % 100) as i32);
    }
    for &k in &keys {
        tape.push(tri(k));
    }
    sort(&mut tape, 3, &mut ctx).unwrap();
    let mut expected: Vec<i128> = keys.iter().map(|&k| k as i128).collect();
    expected.sort();
    assert_eq!(keys_of(&tape), expected);
}

#[test]
fn triangle_order_is_by_area() {
    // a 3-4-5 right triangle has area 6, doubled area 12
    let t1 = Triangle {
        a: Point { x: 0, y: 0 },
        b: Point { x: 4, y: 0 },
        c: Point { x: 0, y: 3 },
    };
    assert_eq!(t1.doubled_area(), 12);
    // a degenerate triangle has area zero
    let t2 = Triangle {
        a: Point { x: 1, y: 1 },
        b: Point { x: 2, y: 2 },
        c: Point { x: 3, y: 3 },
    };
    assert_eq!(t2.doubled_area(), 0);
    // orientation does not matter
    let t3 = Triangle {
        a: Point { x: 0, y: 0 },
        b: Point { x: 0, y: 3 },
        c: Point { x: 4, y: 0 },
    };
    assert_eq!(t3.doubled_area(), 12);
}

#[test]
fn distribute_deals_runs_round_robin() {
    let mut ctx = TapeContext::new();
    let mut source: Tape<Triangle> = Tape::new(&mut ctx, 4);
    for k in [5, 3, 3, 8, 1, 9, 2, 7] {
        source.push(tri(k));
    }
    source.flush();
    let mut work = vec![Tape::new(&mut ctx, 4), Tape::new(&mut ctx, 4)];
    let (runs, m) = distribute(&mut source, &mut work).unwrap();
    assert_eq!((runs, m), (4, 8));
    // runs [5],[3,3,8],[1,9],[2,7] go to slots 0,1,0,1 whole and in order
    assert_eq!(keys_of(&work[0]), vec![5, 1, 9]);
    assert_eq!(work[0].run_lengths().as_slice(), &[1, 2]);
    assert_eq!(keys_of(&work[1]), vec![3, 3, 8, 2, 7]);
    assert_eq!(work[1].run_lengths().as_slice(), &[3, 2]);
}

#[test]
fn distribute_puts_a_sorted_source_on_one_tape() {
    let mut ctx = TapeContext::new();
    let mut source: Tape<Triangle> = Tape::new(&mut ctx, 4);
    for k in [1, 2, 3, 4] {
        source.push(tri(k));
    }
    source.flush();
    let mut work = vec![Tape::new(&mut ctx, 4), Tape::new(&mut ctx, 4)];
    let (runs, m) = distribute(&mut source, &mut work).unwrap();
    assert_eq!((runs, m), (1, 4));
    assert_eq!(keys_of(&work[0]), vec![1, 2, 3, 4]);
    assert_eq!(work[0].run_lengths().as_slice(), &[4]);
    assert!(work[1].contents().is_empty());
    assert_eq!(work[1].run_lengths().len(), 0);
}

#[test]
fn merge_combines_runs_by_index() {
    let mut ctx = TapeContext::new();
    let mut source: Tape<Triangle> = Tape::new(&mut ctx, 4);
    for k in [5, 3, 3, 8, 1, 9, 2, 7] {
        source.push(tri(k));
    }
    source.flush();
    let mut work = vec![Tape::new(&mut ctx, 4), Tape::new(&mut ctx, 4)];
    distribute(&mut source, &mut work).unwrap();
    source.clear();
    merge(&mut work, &mut source).unwrap();
    // round 0 merges [5] and [3,3,8]; round 1 merges [1,9] and [2,7]
    assert_eq!(keys_of(&source), vec![3, 3, 5, 8, 1, 2, 7, 9]);
    assert_eq!(source.run_lengths().as_slice(), &[4, 4]);
}

#[test]
fn merge_breaks_key_ties_by_lowest_source() {
    // two distinct records with the same key: a tall and a wide triangle
    // of doubled area 6
    let tall = Triangle {
        a: Point { x: 0, y: 0 },
        b: Point { x: 1, y: 0 },
        c: Point { x: 0, y: 6 },
    };
    let wide = Triangle {
        a: Point { x: 0, y: 0 },
        b: Point { x: 6, y: 0 },
        c: Point { x: 0, y: 1 },
    };
    assert_eq!(tall.doubled_area(), wide.doubled_area());
    assert_ne!(tall, wide);
    let mut ctx = TapeContext::new();
    let mut target: Tape<Triangle> = Tape::new(&mut ctx, 4);
    let mut work = vec![Tape::new(&mut ctx, 4), Tape::new(&mut ctx, 4)];
    work[0].push(wide);
    work[1].push(tall);
    work[0].flush();
    work[1].flush();
    merge(&mut work, &mut target).unwrap();
    // on equal keys the lowest-indexed source goes first
    assert_eq!(target.contents(), vec![wide, tall]);
}
