use label::twolevel::TwoLevel;

#[test]
fn join_low() {
    assert_eq!(TwoLevel::Low.join(&TwoLevel::Low), TwoLevel::Low);
    assert_eq!(TwoLevel::Low.join(&TwoLevel::High), TwoLevel::High);
}

#[test]
fn join_high() {
    assert_eq!(TwoLevel::High.join(&TwoLevel::Low), TwoLevel::High);
    assert_eq!(TwoLevel::High.join(&TwoLevel::High), TwoLevel::High);
}

#[test]
fn meet_low() {
    assert_eq!(TwoLevel::Low.meet(&TwoLevel::Low), TwoLevel::Low);
    assert_eq!(TwoLevel::Low.meet(&TwoLevel::High), TwoLevel::Low);
}

#[test]
fn meet_high() {
    assert_eq!(TwoLevel::High.meet(&TwoLevel::Low), TwoLevel::Low);
    assert_eq!(TwoLevel::High.meet(&TwoLevel::High), TwoLevel::High);
}

#[test]
fn low_can_flow_to() {
    assert!(TwoLevel::Low.can_flow_to(&TwoLevel::Low));
    assert!(TwoLevel::Low.can_flow_to(&TwoLevel::High));
}

#[test]
fn high_can_flow_to_high() {
    assert!(TwoLevel::High.can_flow_to(&TwoLevel::High));
}

#[test]
fn high_cannot_flow_to_low() {
    assert!(!TwoLevel::High.can_flow_to(&TwoLevel::Low));
}
