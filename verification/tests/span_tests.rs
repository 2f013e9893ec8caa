use aquascope::span::{smooth_spans, sort_spans, Span};

fn sp(lo: u32, hi: u32) -> Span {
    Span { lo, hi }
}

#[test]
fn span_new_orders_its_offsets() {
    assert_eq!(Span::new(3, 9), sp(3, 9));
    assert_eq!(Span::new(9, 3), sp(3, 9));
    assert_eq!(Span::new(4, 4), sp(4, 4));
}

#[test]
fn span_accessors_and_emptiness() {
    let s = sp(7, 11);
    assert_eq!(s.lo(), 7);
    assert_eq!(s.hi(), 11);
    assert!(!s.is_empty());
    assert!(sp(5, 5).is_empty());
    assert_eq!(s.shrink_to_lo(), sp(7, 7));
    assert_eq!(s.shrink_to_hi(), sp(11, 11));
}

#[test]
fn span_overlaps_is_strict_on_both_sides() {
    assert!(sp(1, 5).overlaps(sp(4, 8)));
    assert!(sp(4, 8).overlaps(sp(1, 5)));
    assert!(!sp(1, 5).overlaps(sp(5, 8)));
    assert!(!sp(1, 5).overlaps(sp(6, 8)));
    assert!(!sp(1, 5).overlaps(sp(1, 1)));
    assert!(sp(1, 5).overlaps(sp(3, 3)));
}

#[test]
fn span_contains_and_to() {
    assert!(sp(1, 9).contains(sp(1, 9)));
    assert!(sp(1, 9).contains(sp(3, 4)));
    assert!(!sp(1, 9).contains(sp(0, 4)));
    assert!(!sp(1, 9).contains(sp(3, 10)));
    assert_eq!(sp(3, 6).to(sp(1, 4)), sp(1, 6));
    assert_eq!(sp(1, 4).to(sp(8, 9)), sp(1, 9));
}

#[test]
fn span_excess_counts_both_sides() {
    assert_eq!(sp(2, 20).excess(sp(5, 9)), 3 + 11);
    assert_eq!(sp(5, 9).excess(sp(5, 9)), 0);
    assert_eq!(sp(0, u32::MAX).excess(sp(u32::MAX, u32::MAX)), u32::MAX as u64);
}

#[test]
fn sort_spans_orders_by_start_and_is_stable() {
    let sorted = sort_spans(&vec![sp(3, 9), sp(1, 2), sp(3, 4), sp(0, 7), sp(3, 5)]);
    assert_eq!(sorted, vec![sp(0, 7), sp(1, 2), sp(3, 9), sp(3, 4), sp(3, 5)]);
}

#[test]
fn smooth_of_nothing_is_nothing() {
    assert_eq!(smooth_spans(vec![]), vec![]);
}

#[test]
fn smooth_keeps_a_single_span() {
    assert_eq!(smooth_spans(vec![sp(4, 9)]), vec![sp(4, 9)]);
}

#[test]
fn smooth_merges_overlapping_and_touching_spans() {
    let smoothed = smooth_spans(vec![sp(5, 8), sp(1, 3), sp(3, 4), sp(10, 12), sp(11, 15)]);
    assert_eq!(smoothed, vec![sp(1, 4), sp(5, 8), sp(10, 15)]);
}

#[test]
fn smooth_keeps_a_gap_of_one_byte() {
    assert_eq!(smooth_spans(vec![sp(1, 3), sp(4, 5)]), vec![sp(1, 3), sp(4, 5)]);
}

#[test]
fn smooth_folds_a_nested_span() {
    assert_eq!(smooth_spans(vec![sp(1, 10), sp(3, 4), sp(9, 12)]), vec![sp(1, 12)]);
}

#[test]
fn smooth_folds_an_empty_span_at_the_start_of_a_run() {
    assert_eq!(smooth_spans(vec![sp(1, 5), sp(1, 1)]), vec![sp(1, 5)]);
    assert_eq!(smooth_spans(vec![sp(1, 1), sp(1, 5)]), vec![sp(1, 5)]);
}

#[test]
fn smooth_is_idempotent() {
    let inputs = vec![
        vec![sp(5, 8), sp(1, 3), sp(3, 4), sp(10, 12), sp(11, 15)],
        vec![sp(9, 9), sp(0, 2), sp(2, 2), sp(7, 9)],
        vec![sp(4, 4)],
        vec![],
    ];
    for input in inputs {
        let once = smooth_spans(input);
        let twice = smooth_spans(once.clone());
        assert_eq!(once, twice);
    }
}

#[test]
fn smooth_covers_every_input_span() {
    let input = vec![sp(5, 8), sp(1, 3), sp(3, 4), sp(10, 12), sp(11, 15), sp(20, 20)];
    let smoothed = smooth_spans(input.clone());
    for span in input {
        assert!(smoothed.iter().any(|run| run.contains(span)));
    }
}

#[test]
fn smooth_gives_sorted_separated_runs() {
    let smoothed = smooth_spans(vec![sp(30, 31), sp(5, 8), sp(1, 3), sp(8, 9), sp(2, 4), sp(12, 12)]);
    assert_eq!(smoothed, vec![sp(1, 4), sp(5, 9), sp(12, 12), sp(30, 31)]);
    for i in 0..smoothed.len() {
        for j in (i + 1)..smoothed.len() {
            assert!(smoothed[i].lo() <= smoothed[j].lo());
            assert!(smoothed[i].hi() < smoothed[j].lo());
            assert!(!smoothed[i].overlaps(smoothed[j]));
        }
    }
}

#[test]
fn spans_are_well_formed_when_they_end_no_earlier_than_they_start() {
    assert!(sp(2, 2).is_well_formed());
    assert!(sp(2, 9).is_well_formed());
    assert!(!sp(9, 2).is_well_formed());
    assert!(Span::new(9, 2).is_well_formed());
}

#[test]
fn no_run_ends_where_another_starts() {
    let smoothed = smooth_spans(vec![sp(7, 9), sp(0, 2), sp(4, 4), sp(2, 3), sp(9, 9), sp(12, 14)]);
    assert_eq!(smoothed, vec![sp(0, 3), sp(4, 4), sp(7, 9), sp(12, 14)]);
    for i in 0..smoothed.len() {
        assert!(smoothed[i].is_well_formed());
        for j in 0..smoothed.len() {
            if i != j {
                assert!(smoothed[i].hi() != smoothed[j].lo());
                assert!(!smoothed[i].overlaps(smoothed[j]));
            }
        }
    }
}
