use isofit::fields::{
    classify, Accuracy, TolHole, TolShaft, ToleranceAccuracy, ToleranceFamily, ToleranceField,
};

#[test]
fn test_match_accuracy() {
    assert_eq!(Accuracy::match_accuracy(4), Some(Accuracy::Class4));
    assert_eq!(Accuracy::match_accuracy(9), Some(Accuracy::Class9));
    assert_eq!(Accuracy::match_accuracy(16), Some(Accuracy::Class16));
    assert_eq!(Accuracy::match_accuracy(3), None);
    assert_eq!(Accuracy::match_accuracy(17), None);
    assert_eq!(Accuracy::match_accuracy(0), None);
}

#[test]
fn test_field_from_str() {
    assert_eq!(ToleranceField::from_str("b"), Ok(ToleranceField::Shaft(TolShaft::b)));
    assert_eq!(ToleranceField::from_str("z"), Ok(ToleranceField::Shaft(TolShaft::z)));
    assert_eq!(ToleranceField::from_str("js"), Ok(ToleranceField::Shaft(TolShaft::js)));
    assert_eq!(ToleranceField::from_str("A"), Ok(ToleranceField::Hole(TolHole::A)));
    assert_eq!(ToleranceField::from_str("U"), Ok(ToleranceField::Hole(TolHole::U)));
    assert_eq!(ToleranceField::from_str("JS"), Ok(ToleranceField::Hole(TolHole::JS)));
    assert_eq!(ToleranceField::from_str("K"), Ok(ToleranceField::Hole(TolHole::K)));
    assert_eq!(ToleranceField::from_str("k"), Ok(ToleranceField::Shaft(TolShaft::k)));
    assert_eq!(ToleranceField::from_str("a"), Err(()));
    assert_eq!(ToleranceField::from_str("Z"), Err(()));
    assert_eq!(ToleranceField::from_str("Js"), Err(()));
    assert_eq!(ToleranceField::from_str("cd"), Err(()));
    assert_eq!(ToleranceField::from_str(""), Err(()));
}

// "K" searches the hole family, "k" the shaft family.
#[test]
fn test_classify_by_case() {
    assert_eq!(classify("K"), ToleranceFamily::Hole);
    assert_eq!(classify("k"), ToleranceFamily::Shaft);
    assert_eq!(classify("JS"), ToleranceFamily::Hole);
    assert_eq!(classify("Js"), ToleranceFamily::Shaft);
    assert_eq!(classify("cd"), ToleranceFamily::Shaft);
}

#[test]
fn test_tolerance_accuracy_pair() {
    let ta = ToleranceAccuracy {
        tolerance: ToleranceField::Hole(TolHole::H),
        accuracy: Accuracy::Class7,
    };
    assert_eq!(ta.tolerance, ToleranceField::Hole(TolHole::H));
    assert_eq!(ta.accuracy, Accuracy::Class7);
}
