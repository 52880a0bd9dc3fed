use dictawav::wisard::{Ratio, Wisard};
use dictawav::ConfigurationError;

fn no_confidence_needed() -> Ratio {
    Ratio { num: 0, den: 1 }
}

#[test]
fn trained_class_gets_full_probability() {
    // One class, one 4-bit RAM over the whole retina: training [f, f, f, t]
    // and classifying it again yields 1 positive vote out of 1 RAM.
    let mut wisard = Wisard::new(4, 4, false, no_confidence_needed(), 0, false, true).unwrap();
    let retina = vec![false, false, false, true];
    assert!(wisard.train(String::from("yes"), &retina).is_ok());
    let probabilities = wisard.classification_probabilities(&retina).unwrap();
    assert_eq!(probabilities.len(), 1);
    assert_eq!(probabilities[0].0, "yes");
    assert_eq!(probabilities[0].1, 1);
    let (confidence, (label, probability)) =
        wisard.classification_confidence_and_probability(&retina).unwrap();
    assert_eq!(label, "yes");
    assert_eq!(probability, Ratio { num: 1, den: 1 });
    assert_eq!(probability.num as f64 / probability.den as f64, 1.0);
    assert_eq!(confidence, Ratio { num: 1, den: 1 });
    assert_eq!(wisard.classify(&retina).unwrap(), "yes");
}

#[test]
fn forgetting_an_unknown_label_changes_nothing() {
    let mut wisard = Wisard::new(4, 2, false, no_confidence_needed(), 0, false, true).unwrap();
    let retina = vec![true, false, true, false];
    assert!(wisard.forget("never-trained", &retina).is_ok());
    let probabilities = wisard.classification_probabilities(&retina).unwrap();
    assert_eq!(probabilities.len(), 0);
    assert!(wisard.train(String::from("known"), &retina).is_ok());
    assert!(wisard.forget("never-trained", &retina).is_ok());
    let after = wisard.classification_probabilities(&retina).unwrap();
    assert_eq!(after.len(), 1);
    assert_eq!(after[0].1, 2);
}

#[test]
fn low_confidence_returns_the_sentinel() {
    // Two classes trained on the same retina have equal probabilities, so
    // the confidence is 0, below the minimum of 1/2; bleaching is off.
    let mut wisard = Wisard::new(4, 2, false, Ratio { num: 1, den: 2 }, 0, false, true).unwrap();
    let retina = vec![true, false, false, true];
    assert!(wisard.train(String::from("a"), &retina).is_ok());
    assert!(wisard.train(String::from("b"), &retina).is_ok());
    let (confidence, (label, probability)) =
        wisard.classification_confidence_and_probability(&retina).unwrap();
    assert_eq!(confidence, Ratio { num: 0, den: 1 });
    assert_eq!(label, "Not enough confidence to decide");
    assert_eq!(probability, Ratio { num: 0, den: 1 });
    assert_eq!(confidence.num as f64, 0.0);
    assert_eq!(probability.num as f64, 0.0);
}

#[test]
fn bleaching_raises_the_threshold_until_the_classes_separate() {
    // Both classes answer both RAMs on the query, but "a" was trained twice
    // and "b" once: at the starting threshold the vote counts tie, and the
    // bleaching search must raise the threshold to 1, where "a" keeps both
    // votes and "b" loses both.
    let mut wisard = Wisard::new(2, 1, true, Ratio { num: 1, den: 2 }, 0, false, true).unwrap();
    let retina = vec![true, true];
    assert!(wisard.train(String::from("a"), &retina).is_ok());
    assert!(wisard.train(String::from("a"), &retina).is_ok());
    assert!(wisard.train(String::from("b"), &retina).is_ok());
    let probabilities = wisard.classification_probabilities(&retina).unwrap();
    assert_eq!(probabilities.len(), 2);
    assert_eq!(probabilities[0].0, "a");
    assert_eq!(probabilities[0].1, 2);
    assert_eq!(probabilities[1].0, "b");
    assert_eq!(probabilities[1].1, 0);
    let (confidence, (label, probability)) =
        wisard.classification_confidence_and_probability(&retina).unwrap();
    assert_eq!(label, "a");
    assert_eq!(confidence, Ratio { num: 2, den: 2 });
    assert_eq!(probability, Ratio { num: 2, den: 2 });
}

#[test]
fn bleaching_gives_up_when_no_class_survives() {
    // Every class was trained once, so raising the threshold to 1 empties
    // every vote list: the search aborts and the original tied counts come
    // back unchanged, and the tie then falls below the minimum confidence.
    let mut wisard = Wisard::new(2, 1, true, Ratio { num: 1, den: 2 }, 0, false, true).unwrap();
    let retina = vec![true, true];
    assert!(wisard.train(String::from("a"), &retina).is_ok());
    assert!(wisard.train(String::from("b"), &retina).is_ok());
    let probabilities = wisard.classification_probabilities(&retina).unwrap();
    assert_eq!(probabilities[0].1, 2);
    assert_eq!(probabilities[1].1, 2);
    let (_, (label, _)) = wisard.classification_confidence_and_probability(&retina).unwrap();
    assert_eq!(label, "Not enough confidence to decide");
}

#[test]
fn train_and_forget_round_trip_keeps_classification() {
    let mut wisard = Wisard::new(6, 2, false, no_confidence_needed(), 0, false, true).unwrap();
    let first = vec![true, false, true, true, false, true];
    let second = vec![false, true, false, false, true, false];
    assert!(wisard.train(String::from("one"), &first).is_ok());
    assert!(wisard.train(String::from("two"), &second).is_ok());
    let before = wisard.classification_probabilities(&first).unwrap();
    assert!(wisard.train(String::from("two"), &first).is_ok());
    assert!(wisard.forget("two", &first).is_ok());
    let after = wisard.classification_probabilities(&first).unwrap();
    assert_eq!(before, after);
}

#[test]
fn randomized_mapping_still_separates_single_bit_retinas() {
    // Under any permutation of four positions, two retinas with different
    // single active bits pack different one-RAM addresses: training one
    // never makes the other match.
    let mut wisard = Wisard::new(4, 4, false, no_confidence_needed(), 0, true, true).unwrap();
    let trained = vec![false, false, false, true];
    let other = vec![true, false, false, false];
    assert!(wisard.train(String::from("word"), &trained).is_ok());
    let on_trained = wisard.classification_probabilities(&trained).unwrap();
    assert_eq!(on_trained[0].1, 1);
    let on_other = wisard.classification_probabilities(&other).unwrap();
    assert_eq!(on_other[0].1, 0);
}

#[test]
fn configuration_errors_are_reported() {
    assert_eq!(
        Wisard::new(4, 0, false, no_confidence_needed(), 0, false, true).err(),
        Some(ConfigurationError::NumBitsOutOfRange)
    );
    assert_eq!(
        Wisard::new(4, 63, false, no_confidence_needed(), 0, false, true).err(),
        Some(ConfigurationError::NumBitsOutOfRange)
    );
    assert_eq!(
        Wisard::new(4, 2, false, Ratio { num: 3, den: 2 }, 0, false, true).err(),
        Some(ConfigurationError::ConfidenceOutOfRange)
    );
    assert_eq!(
        Wisard::new(4, 2, false, Ratio { num: 0, den: 0 }, 0, false, true).err(),
        Some(ConfigurationError::ConfidenceOutOfRange)
    );
    let mut wisard = Wisard::new(4, 2, false, no_confidence_needed(), 0, false, true).unwrap();
    let short = vec![true];
    assert_eq!(
        wisard.train(String::from("x"), &short),
        Err(ConfigurationError::RetinaLengthMismatch)
    );
    assert!(wisard.classification_probabilities(&short).is_err());
    assert!(wisard.classify(&short).is_err());
    // Forgetting an unknown label skips the length check, as training it
    // would have skipped the table.
    assert!(wisard.forget("x", &short).is_ok());
    let full = vec![true, false, true, false];
    assert!(wisard.train(String::from("x"), &full).is_ok());
    assert_eq!(wisard.forget("x", &short), Err(ConfigurationError::RetinaLengthMismatch));
}

#[test]
fn classification_and_probability_projects_the_decision() {
    let mut wisard = Wisard::new(4, 2, false, no_confidence_needed(), 0, false, false).unwrap();
    let retina = vec![true, true, false, true];
    assert!(wisard.train(String::from("word"), &retina).is_ok());
    let (label, probability) = wisard.classification_and_probability(&retina).unwrap();
    assert_eq!(label, "word");
    assert_eq!(probability, Ratio { num: 2, den: 2 });
}

#[test]
fn empty_classifier_with_zero_minimum_answers_empty_label() {
    let wisard = Wisard::new(4, 2, false, no_confidence_needed(), 0, false, true).unwrap();
    let retina = vec![true, false, true, false];
    let (confidence, (label, probability)) =
        wisard.classification_confidence_and_probability(&retina).unwrap();
    assert_eq!(confidence, Ratio { num: 0, den: 1 });
    assert_eq!(label, "");
    assert_eq!(probability, Ratio { num: 0, den: 2 });
}
