use lotto_picker::error::LottoError;
use lotto_picker::weights::{count_occurrences, observed_bounds, quantize, Policy, ValueRange, WeightTable};

fn history() -> Vec<u32> {
    vec![1, 1, 1, 2, 2, 3]
}

#[test]
fn direct_weights_of_small_history() {
    let t = WeightTable::with_domain(&history(), 1, 10, Policy::Direct, 1000).unwrap();
    assert_eq!(t.weight(1), Some(500));
    assert_eq!(t.weight(2), Some(333));
    assert_eq!(t.weight(3), Some(166));
    for v in 4..=10 {
        assert_eq!(t.weight(v), Some(0));
    }
}

#[test]
fn table_covers_exactly_the_domain() {
    let t = WeightTable::with_domain(&history(), 2, 7, Policy::Direct, 1000).unwrap();
    assert_eq!(t.lo(), 2);
    assert_eq!(t.hi(), 7);
    assert_eq!(t.weights().len(), 6);
    assert_eq!(t.weight(1), None);
    assert_eq!(t.weight(8), None);
    for v in 2..=7 {
        assert!(t.weight(v).is_some());
    }
}

#[test]
fn domain_from_observations_is_min_to_max() {
    let obs = vec![9, 4, 7, 4, 12];
    assert_eq!(observed_bounds(&obs), Some(ValueRange { lo: 4, hi: 12 }));
    let t = WeightTable::from_observations(&obs, Policy::Direct, 1000).unwrap();
    assert_eq!(t.lo(), 4);
    assert_eq!(t.hi(), 12);
    assert_eq!(t.weight(4), Some(400));
    assert_eq!(t.weight(5), Some(0));
    assert_eq!(t.weight(12), Some(200));
}

#[test]
fn inverse_weights_of_small_history() {
    let t = WeightTable::from_observations(&history(), Policy::Inverse, 1000).unwrap();
    assert_eq!(t.weight(1), Some(2000));
    assert_eq!(t.weight(2), Some(3000));
    assert_eq!(t.weight(3), Some(6000));
}

#[test]
fn inverse_weight_is_rounded_toward_zero() {
    let obs = vec![1, 1, 1, 2, 2, 2, 2];
    let t = WeightTable::from_observations(&obs, Policy::Inverse, 1000).unwrap();
    assert_eq!(t.weight(1), Some(2333));
    assert_eq!(t.weight(2), Some(1750));
}

#[test]
fn direct_weights_grow_with_counts() {
    let obs = vec![5, 6, 6, 7, 7, 7, 8, 8, 8, 8];
    let t = WeightTable::from_observations(&obs, Policy::Direct, 1000).unwrap();
    let w: Vec<u64> = (5..=8).map(|v| t.weight(v).unwrap()).collect();
    assert_eq!(w, vec![100, 200, 300, 400]);
    let counts: usize = (5..=8).map(|v| count_occurrences(&obs, v)).sum();
    assert_eq!(counts, obs.len());
}

#[test]
fn inverse_weights_shrink_with_counts() {
    let obs = vec![5, 6, 6, 7, 7, 7, 8, 8, 8, 8];
    let t = WeightTable::from_observations(&obs, Policy::Inverse, 1000).unwrap();
    let w: Vec<u64> = (5..=8).map(|v| t.weight(v).unwrap()).collect();
    assert_eq!(w, vec![10000, 5000, 3333, 2500]);
}

#[test]
fn empty_history_is_refused() {
    let obs: Vec<u32> = Vec::new();
    assert_eq!(observed_bounds(&obs), None);
    assert!(matches!(WeightTable::from_observations(&obs, Policy::Direct, 1000), Err(LottoError::EmptyHistory)));
    assert!(matches!(WeightTable::with_domain(&obs, 1, 60, Policy::Inverse, 1000), Err(LottoError::EmptyHistory)));
}

#[test]
fn empty_domain_is_refused() {
    assert!(matches!(WeightTable::with_domain(&history(), 5, 4, Policy::Direct, 1000), Err(LottoError::InvalidRange)));
}

#[test]
fn inverse_policy_refuses_unobserved_candidate() {
    assert!(matches!(
        WeightTable::with_domain(&history(), 1, 4, Policy::Inverse, 1000),
        Err(LottoError::UndefinedWeight)
    ));
    let gap = vec![1, 3];
    assert!(matches!(WeightTable::from_observations(&gap, Policy::Inverse, 1000), Err(LottoError::UndefinedWeight)));
}

#[test]
fn weights_beyond_64_bits_are_refused() {
    let obs = vec![1, 2];
    assert!(matches!(
        WeightTable::from_observations(&obs, Policy::Inverse, u64::MAX),
        Err(LottoError::WeightOverflow)
    ));
    let same = vec![1, 1];
    let t = WeightTable::from_observations(&same, Policy::Inverse, u64::MAX).unwrap();
    assert_eq!(t.weight(1), Some(u64::MAX));
}

#[test]
fn domain_up_to_the_largest_value() {
    let obs = vec![u32::MAX, u32::MAX - 1];
    let t = WeightTable::from_observations(&obs, Policy::Direct, 10).unwrap();
    assert_eq!(t.hi(), u32::MAX);
    assert_eq!(t.weight(u32::MAX), Some(5));
}

#[test]
fn counting_occurrences() {
    assert_eq!(count_occurrences(&history(), 1), 3);
    assert_eq!(count_occurrences(&history(), 3), 1);
    assert_eq!(count_occurrences(&history(), 4), 0);
}

#[test]
fn quantizing_one_count() {
    assert_eq!(quantize(Policy::Direct, 1, 6, 1000), Ok(166));
    assert_eq!(quantize(Policy::Direct, 3, 6, 1000), Ok(500));
    assert_eq!(quantize(Policy::Direct, 0, 6, 1000), Ok(0));
    assert_eq!(quantize(Policy::Inverse, 1, 6, 1000), Ok(6000));
    assert_eq!(quantize(Policy::Inverse, 4, 6, 1000), Ok(1500));
}

#[test]
fn quantizing_what_has_no_weight() {
    assert_eq!(quantize(Policy::Direct, 0, 0, 1000), Err(LottoError::EmptyHistory));
    assert_eq!(quantize(Policy::Inverse, 0, 6, 1000), Err(LottoError::UndefinedWeight));
    assert_eq!(quantize(Policy::Inverse, 1, 2, u64::MAX), Err(LottoError::WeightOverflow));
}

#[test]
fn error_messages_differ() {
    let all = [
        LottoError::EmptyHistory,
        LottoError::MalformedLine,
        LottoError::AllWeightsZero,
        LottoError::InvalidRange,
        LottoError::UndefinedWeight,
        LottoError::WeightOverflow,
    ];
    for (i, a) in all.iter().enumerate() {
        assert!(!a.message().is_empty());
        for b in all.iter().skip(i + 1) {
            assert_ne!(a.message(), b.message());
        }
    }
}
