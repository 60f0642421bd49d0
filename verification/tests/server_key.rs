use fhe_integer::shortint::{MaxDegree, Parameters};
use fhe_integer::{ClientKey, ServerKey};

#[test]
fn new_computes_the_degree_budget() {
    let cks = ClientKey::new(Parameters::message_2_carry_2()).unwrap();
    let sks = ServerKey::new(&cks);
    assert_eq!(sks.max_degree(), MaxDegree(11));
    let sks = ServerKey::new(cks);
    assert_eq!(sks.max_degree(), MaxDegree(11));
    let cks = ClientKey::new(Parameters::message_4_carry_4()).unwrap();
    assert_eq!(ServerKey::new(&cks).max_degree(), MaxDegree(239));
}

#[test]
fn from_shortint_overrides_the_budget() {
    let cks = ClientKey::new(Parameters::message_2_carry_2()).unwrap();
    let digit_key = fhe_integer::shortint::ServerKey::new(cks.as_shortint());
    assert_eq!(digit_key.max_degree(), MaxDegree(15));
    let adopted = ServerKey::from_shortint(&cks, digit_key);
    let generated = ServerKey::new(&cks);
    assert_eq!(adopted.max_degree(), MaxDegree(11));
    assert_eq!(adopted.max_degree(), generated.max_degree());
    assert_eq!(adopted.parameters(), generated.parameters());
}

#[test]
fn server_key_converts_back_to_the_digit_key() {
    let cks = ClientKey::new(Parameters::message_2_carry_2()).unwrap();
    let sks = ServerKey::new(&cks);
    let digit_key: fhe_integer::shortint::ServerKey = sks.into();
    assert_eq!(digit_key.max_degree(), MaxDegree(11));
    assert_eq!(digit_key.parameters(), Parameters::message_2_carry_2());
    assert_eq!(sks.into_shortint().max_degree(), MaxDegree(11));
}

#[test]
fn parameters_are_checked() {
    assert!(Parameters::new(4, 4).is_some());
    assert!(Parameters::new(2, 4).is_some());
    assert!(Parameters::new(3, 3).is_some());
    assert!(Parameters::new(2, 2).is_some());
    assert!(Parameters::new(2, 1).is_some());
    assert!(Parameters::new(4, 2).is_some());
    assert!(Parameters::new(8, 4).is_some());
    assert!(Parameters::new(256, 257).is_some());
    assert!(Parameters::new(2, u64::MAX).is_some());
    assert!(Parameters::new(u64::MAX, 1).is_some());
    assert!(Parameters::new(1, 16).is_none());
    assert!(Parameters::new(0, 0).is_none());
    assert!(Parameters::new(2, 0).is_none());
    assert!(Parameters::new(3, u64::MAX).is_none());
    assert!(Parameters::new(u64::MAX, 2).is_none());
}

#[test]
fn well_formed_parameters_leave_room_to_pack_two_digits() {
    for (m, c, expected) in [
        (4u64, 4u64, true),
        (2, 4, true),
        (3, 3, true),
        (16, 16, true),
        (256, 256, true),
        (2, 2, false),
        (2, 3, false),
        (2, 1, false),
        (4, 2, false),
        (8, 4, false),
        (256, 257, false),
        (2, u64::MAX, false),
    ] {
        let p = Parameters::new(m, c).unwrap();
        assert_eq!(p.is_well_formed(), expected, "moduli {} and {}", m, c);
    }
}

#[test]
fn the_budget_exists_for_every_valid_pair_of_moduli() {
    for (m, c, budget) in [
        (2u64, 1u64, 0u64),
        (4, 2, 5),
        (2, 2, 1),
        (2, 3, 2),
        (8, 4, 27),
        (4, 4, 11),
        (2, u64::MAX, u64::MAX - 1),
        (u64::MAX, 1, u64::MAX - 2),
    ] {
        let cks = ClientKey::new(Parameters::new(m, c).unwrap()).unwrap();
        let generated = ServerKey::new(&cks);
        assert_eq!(generated.max_degree(), MaxDegree(budget), "moduli {} and {}", m, c);
        assert_eq!(generated.parameters(), Parameters::new(m, c).unwrap());
        let digit_key = fhe_integer::shortint::ServerKey::new_with_max_degree(
            cks.as_shortint(),
            MaxDegree(12345),
        );
        let adopted = ServerKey::from_shortint(&cks, digit_key);
        assert_eq!(adopted.max_degree(), MaxDegree(budget));
        assert_eq!(adopted.parameters(), generated.parameters());
    }
}

#[test]
fn from_shortint_keeps_the_moduli_of_the_digit_key() {
    let cks = ClientKey::new(Parameters::new(4, 2).unwrap()).unwrap();
    let other = ClientKey::new(Parameters::message_4_carry_4()).unwrap();
    let digit_key = fhe_integer::shortint::ServerKey::new(other.as_shortint());
    let adopted = ServerKey::from_shortint(&cks, digit_key);
    assert_eq!(adopted.max_degree(), MaxDegree(5));
    assert_eq!(adopted.parameters(), Parameters::message_4_carry_4());
}
