use copernica::threat::{
    severity, ThreatAction, ThreatBand, DEFCON1_FLOOR, DEFCON2_FLOOR, DEFCON3_FLOOR,
};

#[test]
fn severity_is_the_weight_in_hundredths() {
    assert_eq!(severity(0), 0);
    assert_eq!(severity(9_999), 0);
    assert_eq!(severity(10_000), 1);
    assert_eq!(severity(333_333), 33);
    assert_eq!(severity(899_999), 89);
    assert_eq!(severity(900_000), 90);
    assert_eq!(severity(1_000_000), 100);
    assert_eq!(severity(2_500_000), 250);
}

#[test]
fn severity_of_a_negative_weight_is_zero() {
    assert_eq!(severity(-1), 0);
    assert_eq!(severity(i64::MIN), 0);
}

#[test]
fn severity_of_the_largest_weight_fits() {
    assert_eq!(severity(i64::MAX), 922_337_203_685_477);
}

#[test]
fn bands_begin_at_their_floors() {
    assert_eq!(ThreatBand::classify(0), ThreatBand::Defcon4);
    assert_eq!(ThreatBand::classify(35), ThreatBand::Defcon4);
    assert_eq!(ThreatBand::classify(36), ThreatBand::Defcon3);
    assert_eq!(ThreatBand::classify(59), ThreatBand::Defcon3);
    assert_eq!(ThreatBand::classify(60), ThreatBand::Defcon2);
    assert_eq!(ThreatBand::classify(89), ThreatBand::Defcon2);
    assert_eq!(ThreatBand::classify(90), ThreatBand::Defcon1);
    assert_eq!(ThreatBand::classify(u64::MAX), ThreatBand::Defcon1);
}

#[test]
fn floors_are_36_60_and_90() {
    assert_eq!(ThreatBand::Defcon4.lowest(), 0);
    assert_eq!(ThreatBand::Defcon3.lowest(), 36);
    assert_eq!(ThreatBand::Defcon2.lowest(), 60);
    assert_eq!(ThreatBand::Defcon1.lowest(), 90);
    assert_eq!((DEFCON3_FLOOR, DEFCON2_FLOOR, DEFCON1_FLOOR), (36, 60, 90));
}

#[test]
fn only_the_highest_band_drops() {
    assert_eq!(ThreatBand::Defcon4.response(), ThreatAction::Report);
    assert_eq!(ThreatBand::Defcon3.response(), ThreatAction::Report);
    assert_eq!(ThreatBand::Defcon2.response(), ThreatAction::Report);
    assert_eq!(ThreatBand::Defcon1.response(), ThreatAction::Drop);
}
