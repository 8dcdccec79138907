use fingertips::off_thread_ext::AccValue;
use fingertips::off_thread_ext::ConditionAccmulatorExt;
use fingertips::off_thread_ext::ErrorSink;
use fingertips::off_thread_ext::ErrorsTo;
use fingertips::off_thread_ext::OffThreadExt;
use fingertips::off_thread_ext::SumReducer;
use fingertips::pipeline::IndexError;

fn test_util(numbers: Vec<u64>, expected: Vec<u64>) {
    let result = numbers
        .condition_reduce(SumReducer { threshold: 10 })
        .collect_values();
    assert_eq!(result, expected);
}

#[test]
fn test_one() {
    let numbers = vec![1, 5, 3, 1, 10];
    test_util(numbers, vec![10, 10]);
    let numbers = vec![1, 5, 3, 1, 2, 10];
    test_util(numbers, vec![10, 12]);
    let numbers = vec![1, 5];
    test_util(numbers, vec![6]);
}

#[test]
fn accumulator_emits_markers_and_values() {
    let numbers: Vec<u64> = vec![4, 7, 2];
    let mut acc = numbers.condition_reduce(SumReducer { threshold: 10 });
    // 4: still below threshold, more input pending -> marker
    assert!(matches!(acc.next(), Some(AccValue::Empty)));
    // 4 + 7 = 11 fires -> value, accumulator reset
    assert!(matches!(acc.next(), Some(AccValue::Value(11))));
    // 2 on the last item does not fire -> forced flush of the partial state
    assert!(matches!(acc.next(), Some(AccValue::Value(2))));
    assert!(acc.next().is_none());
    assert!(acc.next().is_none());
}

#[test]
fn accumulator_never_firing_flushes_once() {
    // The predicate never fires: exactly one value, the fold of everything.
    let numbers: Vec<u64> = vec![1, 2, 3];
    let result = numbers
        .condition_reduce(SumReducer { threshold: 1000 })
        .collect_values();
    assert_eq!(result, vec![6]);
}

#[test]
fn accumulator_empty_input_flushes_seed() {
    let numbers: Vec<u64> = vec![];
    let result = numbers
        .condition_reduce(SumReducer { threshold: 10 })
        .collect_values();
    assert_eq!(result, vec![0]);
}

#[test]
fn off_thread_is_order_preserving_identity() {
    let items: Vec<u64> = vec![3, 1, 4, 1, 5];
    assert_eq!(items.clone().off_thread(), items);
    let nothing: Vec<u64> = vec![];
    assert_eq!(nothing.off_thread(), Vec::<u64>::new());
}

#[test]
fn errors_to_splits_values_and_failures() {
    let input: Vec<Result<u64, IndexError>> = vec![
        Ok(1),
        Err(IndexError::ReadFailed("a.txt".to_string())),
        Ok(2),
        Err(IndexError::ReadFailed("b.txt".to_string())),
        Ok(3),
    ];
    let total = input.len();
    let mut sink: ErrorSink<IndexError> = ErrorSink::new();
    let values = input.errors_to(&mut sink);
    let failures = sink.into_errors();
    // Values continue in order; every failure reaches the sink exactly once.
    assert_eq!(values, vec![1, 2, 3]);
    assert_eq!(failures.len(), 2);
    assert!(matches!(&failures[0], IndexError::ReadFailed(p) if p == "a.txt"));
    assert!(matches!(&failures[1], IndexError::ReadFailed(p) if p == "b.txt"));
    // count(input) == count(output values) + count(forwarded failures)
    assert_eq!(total, values.len() + failures.len());
}
