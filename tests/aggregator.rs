use move_structuring::aggregator::{
    addition, subtraction, Aggregator, AggregatorData, AggregatorError, AggregatorHandle, AggregatorID,
    AggregatorState,
};

fn aggregator_id_for_test(key: u128) -> AggregatorID {
    AggregatorID::new(0, AggregatorHandle(key))
}

/// Storage holds 300 for the aggregator with key 600, and nothing else.
fn stored(id: &AggregatorID) -> Option<u128> {
    if id.key == 600 {
        Some(300)
    } else {
        None
    }
}

#[test]
fn test_materialize_not_in_storage() {
    let mut aggregator_data = AggregatorData::default();

    let aggregator = aggregator_data.get_aggregator(aggregator_id_for_test(300), 700);
    assert!(aggregator.read_and_materialize(stored(&aggregator_id_for_test(700))).is_err());
}

#[test]
fn test_materialize_known() {
    let mut aggregator_data = AggregatorData::default();
    aggregator_data.create_new_aggregator(aggregator_id_for_test(200), 200);

    let aggregator = aggregator_data.get_aggregator(aggregator_id_for_test(200), 200);
    assert!(aggregator.add(100).is_ok());
    assert!(aggregator.read_and_materialize(stored(&aggregator_id_for_test(200))).is_ok());
    assert_eq!(aggregator.value, 100);
}

#[test]
fn test_materialize_overflow() {
    let mut aggregator_data = AggregatorData::default();

    // +0 to +400 satisfies <= 600 and is ok, but materialization fails
    // with 300 + 400 > 600!
    let aggregator = aggregator_data.get_aggregator(aggregator_id_for_test(600), 600);
    assert!(aggregator.add(400).is_ok());
    assert!(aggregator.read_and_materialize(stored(&aggregator_id_for_test(600))).is_err());
}

#[test]
fn test_materialize_underflow() {
    let mut aggregator_data = AggregatorData::default();

    let aggregator = aggregator_data.get_aggregator(aggregator_id_for_test(600), 600);
    assert!(aggregator.add(400).is_ok());
    assert!(aggregator.read_and_materialize(stored(&aggregator_id_for_test(600))).is_err());
}

#[test]
fn test_materialize_non_monotonic_1() {
    let mut aggregator_data = AggregatorData::default();

    // +0 to +400 to +100 is ok, but materialization fails since we had 300 + 400 > 600!
    let aggregator = aggregator_data.get_aggregator(aggregator_id_for_test(600), 600);
    assert!(aggregator.add(400).is_ok());
    assert!(aggregator.sub(300).is_ok());
    assert_eq!(aggregator.value, 100);
    assert_eq!(aggregator.state, AggregatorState::PositiveDelta);
    assert!(aggregator.read_and_materialize(stored(&aggregator_id_for_test(600))).is_err());
}

#[test]
fn test_materialize_non_monotonic_2() {
    let mut aggregator_data = AggregatorData::default();

    // +0 to -301 to -300 is ok, but materialization fails since we had 300 - 301 < 0!
    let aggregator = aggregator_data.get_aggregator(aggregator_id_for_test(600), 600);
    assert!(aggregator.sub(301).is_ok());
    assert!(aggregator.add(1).is_ok());
    assert_eq!(aggregator.value, 300);
    assert_eq!(aggregator.state, AggregatorState::NegativeDelta);
    assert!(aggregator.read_and_materialize(stored(&aggregator_id_for_test(600))).is_err());
}

#[test]
fn test_add_overflow() {
    let mut aggregator_data = AggregatorData::default();

    // +0 to +800 > 600!
    let aggregator = aggregator_data.get_aggregator(aggregator_id_for_test(600), 600);
    assert!(aggregator.add(800).is_err());

    // 0 + 300 > 200!
    let aggregator = aggregator_data.get_aggregator(aggregator_id_for_test(200), 200);
    assert!(aggregator.add(300).is_err());
}

#[test]
fn test_sub_underflow() {
    let mut aggregator_data = AggregatorData::default();
    aggregator_data.create_new_aggregator(aggregator_id_for_test(200), 200);

    // +0 to -601 is impossible!
    let aggregator = aggregator_data.get_aggregator(aggregator_id_for_test(600), 600);
    assert!(aggregator.sub(601).is_err());

    // Similarly, we cannot subtract anything from 0...
    let aggregator = aggregator_data.get_aggregator(aggregator_id_for_test(200), 200);
    assert!(aggregator.sub(2).is_err());
}

#[test]
fn test_commutative() {
    let mut aggregator_data = AggregatorData::default();

    // +200 -300 +50 +300 -25 +375 -600.
    let aggregator = aggregator_data.get_aggregator(aggregator_id_for_test(600), 600);
    assert!(aggregator.add(200).is_ok());
    assert!(aggregator.sub(300).is_ok());

    assert_eq!(aggregator.value, 100);
    assert_eq!(aggregator.history.as_ref().unwrap().max_positive, 200);
    assert_eq!(aggregator.history.as_ref().unwrap().min_negative, 100);
    assert_eq!(aggregator.state, AggregatorState::NegativeDelta);

    assert!(aggregator.add(50).is_ok());
    assert!(aggregator.add(300).is_ok());
    assert!(aggregator.sub(25).is_ok());

    assert_eq!(aggregator.value, 225);
    assert_eq!(aggregator.history.as_ref().unwrap().max_positive, 250);
    assert_eq!(aggregator.history.as_ref().unwrap().min_negative, 100);
    assert_eq!(aggregator.state, AggregatorState::PositiveDelta);

    assert!(aggregator.add(375).is_ok());
    assert!(aggregator.sub(600).is_ok());

    assert_eq!(aggregator.value, 0);
    assert_eq!(aggregator.history.as_ref().unwrap().max_positive, 600);
    assert_eq!(aggregator.history.as_ref().unwrap().min_negative, 100);
    assert_eq!(aggregator.state, AggregatorState::PositiveDelta);
}

#[test]
#[should_panic]
fn test_history_validation_in_data_state() {
    let mut aggregator_data = AggregatorData::default();

    // Validation panics if history is not set. This is an invariant
    // violation and should never happen.
    aggregator_data.create_new_aggregator(aggregator_id_for_test(200), 200);
    let aggregator = aggregator_data.get_aggregator(aggregator_id_for_test(200), 200);
    aggregator
        .validate_history(0)
        .expect("Should not be called because validation panics");
}

#[test]
fn test_history_validation_in_delta_state() {
    let mut aggregator_data = AggregatorData::default();

    // Some aggregator with a limit of 100 in a delta state.
    let id = aggregator_id_for_test(100);
    let aggregator = aggregator_data.get_aggregator(id, 100);

    // Aggregator of +0 with minimum of -50 and maximum of +50.
    aggregator.add(50).unwrap();
    aggregator.sub(100).unwrap();
    aggregator.add(50).unwrap();

    // Valid history: 50+50-100+50.
    assert!(aggregator.validate_history(50).is_ok());

    // Underflow and overflow are unvalidated.
    assert!(aggregator.validate_history(49).is_err());
    assert!(aggregator.validate_history(51).is_err());
}

#[test]
fn materialize_applies_delta_and_forgets_history() {
    let mut aggregator = Aggregator::new_delta(600);
    assert!(aggregator.add(200).is_ok());
    assert_eq!(aggregator.read_and_materialize(Some(300)), Ok(500));
    assert_eq!(aggregator.state, AggregatorState::Data);
    assert!(aggregator.history.is_none());
    assert_eq!(aggregator.read_and_materialize(None), Ok(500));
}

#[test]
fn materialize_negative_delta() {
    let mut aggregator = Aggregator::new_delta(600);
    assert!(aggregator.sub(100).is_ok());
    assert_eq!(aggregator.read_and_materialize(Some(300)), Ok(200));
}

#[test]
fn error_kinds() {
    let mut aggregator = Aggregator::new_delta(600);
    assert_eq!(aggregator.add(601), Err(AggregatorError::Overflow));
    assert_eq!(aggregator.sub(601), Err(AggregatorError::Underflow));
    assert!(aggregator.sub(10).is_ok());
    assert_eq!(aggregator.sub(591), Err(AggregatorError::Overflow));
    assert_eq!(aggregator.read_and_materialize(None), Err(AggregatorError::Deleted));
    assert_eq!(aggregator.read_and_materialize(Some(5)), Err(AggregatorError::Underflow));
    let mut known = Aggregator::new_data(10);
    assert_eq!(known.add(11), Err(AggregatorError::Overflow));
    assert_eq!(known.sub(1), Err(AggregatorError::Underflow));
}

#[test]
fn into_unpacks_fields() {
    let mut aggregator = Aggregator::new_delta(600);
    assert!(aggregator.add(7).is_ok());
    let (value, state, limit, history) = aggregator.into();
    assert_eq!((value, state, limit), (7, AggregatorState::PositiveDelta, 600));
    assert_eq!(history.unwrap().max_positive, 7);
}

#[test]
fn plain_arithmetic() {
    assert_eq!(addition(5, 5, 10), Ok(10));
    assert_eq!(addition(5, 6, 10), Err(AggregatorError::Overflow));
    assert_eq!(addition(u128::MAX, 1, u128::MAX), Err(AggregatorError::Overflow));
    assert_eq!(subtraction(5, 5), Ok(0));
    assert_eq!(subtraction(5, 6), Err(AggregatorError::Underflow));
}

#[test]
fn data_tracks_created_and_destroyed() {
    let mut data = AggregatorData::default();
    data.create_new_aggregator(aggregator_id_for_test(1), 10);
    let _ = data.get_aggregator(aggregator_id_for_test(2), 10);
    let _ = data.get_aggregator(aggregator_id_for_test(1), 99);
    assert_eq!(data.num_aggregators(), 2);
    assert_eq!(data.get_aggregator(aggregator_id_for_test(1), 99).limit, 10);

    // Created here: removing it leaves no trace.
    data.remove_aggregator(aggregator_id_for_test(1));
    // From storage: removing it records the deletion.
    data.remove_aggregator(aggregator_id_for_test(2));
    data.remove_aggregator(aggregator_id_for_test(2));
    assert_eq!(data.num_aggregators(), 0);
    let (created, destroyed, aggregators) = data.into();
    assert!(created.is_empty());
    assert_eq!(destroyed, vec![aggregator_id_for_test(2)]);
    assert!(aggregators.is_empty());
}

#[test]
fn create_replaces_an_aggregator_in_use() {
    let mut data = AggregatorData::default();
    let a = data.get_aggregator(aggregator_id_for_test(5), 50);
    assert!(a.add(20).is_ok());
    data.create_new_aggregator(aggregator_id_for_test(5), 70);
    data.create_new_aggregator(aggregator_id_for_test(5), 70);
    assert_eq!(data.num_aggregators(), 1);
    let a = data.get_aggregator(aggregator_id_for_test(5), 0);
    assert_eq!((a.value, a.state, a.limit), (0, AggregatorState::Data, 70));
    let (created, _, _) = data.into();
    assert_eq!(created, vec![aggregator_id_for_test(5)]);
}
