use uncertainty::{entropy_terms, group_count, is_positive, margin_picks, order_key, ScoreError, TopTwo};

fn bits_of(values: &[f64]) -> Vec<u64> {
    values.iter().map(|v| v.to_bits()).collect()
}

fn entropies(values: &[f64], group_size: usize) -> Vec<f64> {
    let terms = entropy_terms(&bits_of(values), group_size).unwrap();
    terms
        .iter()
        .map(|group| group.iter().map(|&j| -values[j] * values[j].log2()).sum())
        .collect()
}

fn margins(values: &[f64], group_size: usize) -> Vec<f64> {
    let picks = margin_picks(&bits_of(values), group_size).unwrap();
    picks
        .iter()
        .map(|t| match t.second {
            Some(j) => values[t.first] - values[j],
            None => values[t.first],
        })
        .collect()
}

#[test]
fn test_entropy() {
    let probs = vec![0.5, 0.5, 0.98, 0.02];
    let entropy = entropies(&probs, 2);
    assert!((entropy[0] - 1.0).abs() < 1e-9);
    assert!(entropy[1] < 0.2);
}

#[test]
fn end_to_end_two_groups() {
    let probs = vec![0.5, 0.5, 0.98, 0.02];
    let bits = bits_of(&probs);
    assert_eq!(entropy_terms(&bits, 2).unwrap(), vec![vec![0, 1], vec![2, 3]]);
    let picks = margin_picks(&bits, 2).unwrap();
    assert_eq!(picks.len(), 2);
    assert_eq!(picks[1], TopTwo { first: 2, second: Some(3) });
    let entropy = entropies(&probs, 2);
    assert!((entropy[0] - 1.0).abs() < 1e-9);
    assert!((entropy[1] - 0.1414).abs() < 1e-4);
    let margin = margins(&probs, 2);
    assert!(margin[0].abs() < 1e-12);
    assert!((margin[1] - 0.96).abs() < 1e-9);
}

#[test]
fn trailing_partial_group_is_dropped() {
    let bits = bits_of(&[0.7]);
    assert_eq!(entropy_terms(&bits, 2).unwrap(), Vec::<Vec<usize>>::new());
    assert_eq!(margin_picks(&bits, 2).unwrap(), Vec::<TopTwo>::new());
    let bits = bits_of(&[0.5, 0.5, 0.3]);
    assert_eq!(entropy_terms(&bits, 2).unwrap(), vec![vec![0, 1]]);
    assert_eq!(margin_picks(&bits, 2).unwrap().len(), 1);
}

#[test]
fn zero_group_size_is_refused() {
    let bits = bits_of(&[0.5, 0.5]);
    assert_eq!(entropy_terms(&bits, 0), Err(ScoreError::InvalidGroupSize));
    assert_eq!(margin_picks(&bits, 0), Err(ScoreError::InvalidGroupSize));
    assert_eq!(group_count(2, 0), Err(ScoreError::InvalidGroupSize));
    assert_eq!(entropy_terms(&[], 0), Err(ScoreError::InvalidGroupSize));
}

#[test]
fn output_length_is_whole_groups() {
    for n in 0..12usize {
        let values: Vec<f64> = (0..n).map(|k| (k as f64 + 1.0) / 16.0).collect();
        let bits = bits_of(&values);
        for g in 1..6usize {
            assert_eq!(group_count(n, g), Ok(n / g));
            assert_eq!(entropy_terms(&bits, g).unwrap().len(), n / g);
            assert_eq!(margin_picks(&bits, g).unwrap().len(), n / g);
        }
    }
}

#[test]
fn one_hot_entropy_is_zero() {
    let probs = vec![0.0, 1.0, 0.0, 0.0];
    assert_eq!(entropy_terms(&bits_of(&probs), 4).unwrap(), vec![vec![1]]);
    assert_eq!(entropies(&probs, 4), vec![0.0]);
    assert_eq!(entropies(&[1.0], 1), vec![0.0]);
}

#[test]
fn zero_group_entropy_is_zero() {
    let probs = vec![0.0, 0.0, 0.0];
    assert_eq!(entropy_terms(&bits_of(&probs), 3).unwrap(), vec![Vec::<usize>::new()]);
    assert_eq!(entropies(&probs, 3), vec![0.0]);
}

#[test]
fn uniform_entropy_is_log2_of_classes() {
    let probs = vec![0.25, 0.25, 0.25, 0.25];
    assert_eq!(entropy_terms(&bits_of(&probs), 4).unwrap(), vec![vec![0, 1, 2, 3]]);
    assert!((entropies(&probs, 4)[0] - 2.0).abs() < 1e-12);
    assert!((entropies(&[0.5, 0.5], 2)[0] - 1.0).abs() < 1e-12);
}

#[test]
fn entropy_is_not_negative() {
    let probs = vec![0.1, 0.9, 0.0, 1.0, 0.3, 0.7, 0.02, 0.98];
    for h in entropies(&probs, 2) {
        assert!(h >= 0.0);
    }
}

#[test]
fn non_positive_entries_have_no_entropy_term() {
    let probs = vec![-0.5, -0.0, 0.0, f64::NAN, 0.5, f64::MIN_POSITIVE];
    assert_eq!(entropy_terms(&bits_of(&probs), 6).unwrap(), vec![vec![4, 5]]);
}

#[test]
fn margin_of_concentrated_group() {
    let picks = margin_picks(&bits_of(&[0.98, 0.02]), 2).unwrap();
    assert_eq!(picks, vec![TopTwo { first: 0, second: Some(1) }]);
    assert!((margins(&[0.98, 0.02], 2)[0] - 0.96).abs() < 1e-12);
}

#[test]
fn margin_of_tied_group_is_zero() {
    let picks = margin_picks(&bits_of(&[0.5, 0.5]), 2).unwrap();
    let t = picks[0];
    let j = t.second.unwrap();
    assert_ne!(t.first, j);
    assert_eq!(margins(&[0.5, 0.5], 2), vec![0.0]);
    assert_eq!(margins(&[0.2, 0.4, 0.4], 3), vec![0.0]);
}

#[test]
fn margin_ignores_order_within_group() {
    let a = margins(&[0.1, 0.9], 2);
    let b = margins(&[0.9, 0.1], 2);
    assert!((a[0] - 0.8).abs() < 1e-12);
    assert_eq!(a, b);
    assert_eq!(margin_picks(&bits_of(&[0.1, 0.9]), 2).unwrap(), vec![TopTwo { first: 1, second: Some(0) }]);
    assert_eq!(margins(&[0.3, 0.6, 0.1], 3), margins(&[0.1, 0.3, 0.6], 3));
}

#[test]
fn margin_of_single_value_group_is_that_value() {
    let picks = margin_picks(&bits_of(&[0.7, 0.3]), 1).unwrap();
    assert_eq!(picks, vec![TopTwo { first: 0, second: None }, TopTwo { first: 1, second: None }]);
    assert_eq!(margins(&[0.7, 0.3], 1), vec![0.7, 0.3]);
}

#[test]
fn margin_of_later_groups_uses_their_own_values() {
    let probs = vec![0.6, 0.4, 0.1, 0.2, 0.7];
    let picks = margin_picks(&bits_of(&probs), 3).unwrap();
    assert_eq!(picks.len(), 1);
    let probs = vec![0.6, 0.3, 0.1, 0.2, 0.1, 0.7];
    let picks = margin_picks(&bits_of(&probs), 3).unwrap();
    assert_eq!(picks[0], TopTwo { first: 0, second: Some(1) });
    assert_eq!(picks[1], TopTwo { first: 5, second: Some(3) });
}

#[test]
fn order_key_follows_numeric_order() {
    let ordered = [f64::NEG_INFINITY, -1.0, -0.5, -0.0, 0.0, 1e-300, 0.5, 1.0, f64::INFINITY];
    for w in ordered.windows(2) {
        assert!(order_key(w[0].to_bits()) < order_key(w[1].to_bits()));
    }
    assert_eq!(order_key(0.0f64.to_bits()), 0x8000_0000_0000_0000);
    assert_eq!(order_key((-0.0f64).to_bits()), 0x7fff_ffff_ffff_ffff);
    assert_eq!(order_key(1.0f64.to_bits()), 0xbff0_0000_0000_0000);
}

#[test]
fn positivity_of_patterns() {
    assert!(is_positive(0.5f64.to_bits()));
    assert!(is_positive(f64::INFINITY.to_bits()));
    assert!(is_positive(f64::MIN_POSITIVE.to_bits()));
    assert!(!is_positive(0.0f64.to_bits()));
    assert!(!is_positive((-0.0f64).to_bits()));
    assert!(!is_positive((-0.25f64).to_bits()));
    assert!(!is_positive(f64::NAN.to_bits()));
}

#[test]
fn empty_buffer_has_no_groups() {
    assert_eq!(entropy_terms(&[], 2), Ok(Vec::<Vec<usize>>::new()));
    assert_eq!(margin_picks(&[], 2), Ok(Vec::<TopTwo>::new()));
    assert_eq!(group_count(0, 3), Ok(0));
}
