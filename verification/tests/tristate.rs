use bitvec::Tristate;

#[test]
fn tristate_from_bool() {
    assert_eq!(Tristate::from(true), Tristate::True);
    assert_eq!(Tristate::from(false), Tristate::False);
}

#[test]
fn tristate_from_option() {
    assert_eq!(Tristate::from(Some(true)), Tristate::True);
    assert_eq!(Tristate::from(Some(false)), Tristate::False);
    assert_eq!(Tristate::from(None::<bool>), Tristate::Error);
}

#[test]
fn tristate_orders_error_first() {
    assert!(Tristate::Error < Tristate::False);
    assert!(Tristate::False < Tristate::True);
}

#[test]
fn tristate_round_trip() {
    for opt in [None, Some(false), Some(true)] {
        assert_eq!(Tristate::from(opt).to_option(), opt);
    }
}
