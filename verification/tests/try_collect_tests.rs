use try_collect::AggregateResult;
use try_collect::FallibleValue;
use try_collect::LazySeq;
use try_collect::TryCollectExt;

fn seq_of(items: Vec<FallibleValue<usize, &'static str>>) -> LazySeq<usize, &'static str> {
    LazySeq::from_vec(items)
}

#[test]
fn test_try_collect() {
    let r1: AggregateResult<Vec<usize>, &'static str> = seq_of(vec![
        FallibleValue::Success(1),
        FallibleValue::Success(2),
        FallibleValue::Success(3),
        FallibleValue::Failure("error"),
        FallibleValue::Success(4),
    ])
    .try_collect();
    assert!(r1.is_failure());

    let r2: AggregateResult<Vec<usize>, &'static str> = seq_of(vec![
        FallibleValue::Success(1),
        FallibleValue::Success(2),
        FallibleValue::Success(3),
        FallibleValue::Success(4),
    ])
    .try_collect();
    assert!(r2.is_success());
    assert!(r2.into_success().unwrap().len() == 4);
}

#[test]
fn first_failure_wins() {
    let mut s = seq_of(vec![
        FallibleValue::Success(1),
        FallibleValue::Failure("first"),
        FallibleValue::Failure("second"),
        FallibleValue::Success(2),
        FallibleValue::Failure("third"),
    ]);
    let r: AggregateResult<Vec<usize>, &'static str> = s.try_collect();
    assert_eq!(r.into_failure(), Some("first"));
    assert_eq!(s.pulled(), 2);
}

#[test]
fn all_success_keeps_order_and_length() {
    let mut s = seq_of(vec![
        FallibleValue::Success(10),
        FallibleValue::Success(20),
        FallibleValue::Success(30),
    ]);
    let r: AggregateResult<Vec<usize>, &'static str> = s.try_collect();
    assert_eq!(r.into_success(), Some(vec![10, 20, 30]));
    assert_eq!(s.pulled(), 3);
    assert!(!s.has_remaining());
}

#[test]
fn stops_pulling_after_first_failure() {
    let mut s = seq_of(vec![
        FallibleValue::Success(1),
        FallibleValue::Success(2),
        FallibleValue::Failure("stop"),
        FallibleValue::Success(3),
        FallibleValue::Success(4),
    ]);
    let r: AggregateResult<Vec<usize>, &'static str> = s.try_collect();
    assert!(r.is_failure());
    // The failure sat at position 3 (1-indexed): exactly 3 pulls happened,
    // and the two elements past it are still unpulled.
    assert_eq!(s.pulled(), 3);
    assert!(s.has_remaining());
    assert_eq!(
        s.next(),
        Some(FallibleValue::Success(3)),
        "the element after the failure must still be in place"
    );
    assert_eq!(s.next(), Some(FallibleValue::Success(4)));
    assert_eq!(s.next(), None);
}

#[test]
fn repeat_on_equal_contents_gives_equal_result() {
    let items = || {
        vec![
            FallibleValue::Success(5),
            FallibleValue::Success(6),
            FallibleValue::Failure("boom"),
            FallibleValue::Success(7),
        ]
    };
    let mut s1 = seq_of(items());
    let mut s2 = seq_of(items());
    let r1: AggregateResult<Vec<usize>, &'static str> = s1.try_collect();
    let r2: AggregateResult<Vec<usize>, &'static str> = s2.try_collect();
    assert_eq!(s1.pulled(), s2.pulled());
    assert_eq!(r1.into_failure(), r2.into_failure());

    let mut s3 = seq_of(vec![FallibleValue::Success(8), FallibleValue::Success(9)]);
    let mut s4 = seq_of(vec![FallibleValue::Success(8), FallibleValue::Success(9)]);
    let r3: AggregateResult<Vec<usize>, &'static str> = s3.try_collect();
    let r4: AggregateResult<Vec<usize>, &'static str> = s4.try_collect();
    assert_eq!(r3.into_success(), r4.into_success());
}

#[test]
fn scenario_a_first_failure_short_circuits() {
    let mut s = seq_of(vec![
        FallibleValue::Success(1),
        FallibleValue::Success(2),
        FallibleValue::Success(3),
        FallibleValue::Failure("err"),
        FallibleValue::Success(4),
    ]);
    let r: AggregateResult<Vec<usize>, &'static str> = s.try_collect();
    assert_eq!(r.into_failure(), Some("err"));
    // Success(4) was never evaluated: only four elements were pulled.
    assert_eq!(s.pulled(), 4);
    assert_eq!(s.next(), Some(FallibleValue::Success(4)));
}

#[test]
fn scenario_b_all_success() {
    let mut s = seq_of(vec![
        FallibleValue::Success(1),
        FallibleValue::Success(2),
        FallibleValue::Success(3),
        FallibleValue::Success(4),
    ]);
    let r: AggregateResult<Vec<usize>, &'static str> = s.try_collect();
    assert_eq!(r.into_success(), Some(vec![1, 2, 3, 4]));
}

#[test]
fn scenario_c_empty_input() {
    let mut s = seq_of(vec![]);
    let r: AggregateResult<Vec<usize>, &'static str> = s.try_collect();
    assert_eq!(r.into_success(), Some(vec![]));
    assert_eq!(s.pulled(), 0);
}

#[test]
fn scenario_d_single_failure() {
    let mut s = seq_of(vec![FallibleValue::Failure("x")]);
    let r: AggregateResult<Vec<usize>, &'static str> = s.try_collect();
    assert_eq!(r.into_failure(), Some("x"));
    assert_eq!(s.pulled(), 1);
}

#[test]
fn failure_first_collects_nothing() {
    let mut s = seq_of(vec![
        FallibleValue::Failure("immediate"),
        FallibleValue::Success(1),
    ]);
    let r: AggregateResult<Vec<usize>, &'static str> = s.try_collect();
    assert!(!r.is_success());
    assert_eq!(s.pulled(), 1);
}

#[test]
fn pulling_by_hand_matches_construction_order() {
    let mut s = seq_of(vec![
        FallibleValue::Success(1),
        FallibleValue::Failure("e"),
        FallibleValue::Success(2),
    ]);
    assert_eq!(s.next(), Some(FallibleValue::Success(1)));
    assert_eq!(s.next(), Some(FallibleValue::Failure("e")));
    assert_eq!(s.next(), Some(FallibleValue::Success(2)));
    assert_eq!(s.next(), None);
    assert_eq!(s.pulled(), 3);
}
