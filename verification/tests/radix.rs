use fhe_integer::shortint::{CheckError, Degree, Parameters, WorkMeter};
use fhe_integer::{ClientKey, MalformedInteger, RadixCiphertext, ServerKey};

fn keys(p: Parameters) -> (ClientKey, ServerKey) {
    let cks = ClientKey::new(p).unwrap();
    let sks = ServerKey::new(&cks);
    (cks, sks)
}

fn degrees(ct: &RadixCiphertext) -> Vec<u64> {
    ct.blocks().iter().map(|b| b.degree().0).collect()
}

fn raw_digits(cks: &ClientKey, ct: &RadixCiphertext) -> Vec<u64> {
    ct.blocks().iter().map(|b| cks.as_shortint().decrypt_message_and_carry(b)).collect()
}

#[test]
fn encrypt_then_decrypt_is_the_value_modulo_the_width() {
    let (cks, _) = keys(Parameters::message_2_carry_2());
    let ct = cks.encrypt_radix(0xB7, 4).unwrap();
    assert_eq!(raw_digits(&cks, &ct), vec![3, 1, 3, 2]);
    assert_eq!(degrees(&ct), vec![3, 3, 3, 3]);
    assert_eq!(cks.decrypt_radix(&ct), 0xB7);
    let ct = cks.encrypt_radix(0x1B7, 4).unwrap();
    assert_eq!(cks.decrypt_radix(&ct), 0xB7);
    let ct = cks.encrypt_radix(u64::MAX, 31).unwrap();
    assert_eq!(cks.decrypt_radix(&ct), (1u64 << 62) - 1);
}

#[test]
fn an_integer_without_digits_is_refused() {
    let (cks, _) = keys(Parameters::message_2_carry_2());
    assert_eq!(cks.encrypt_radix(5, 0).err(), Some(MalformedInteger::NoDigits));
    assert_eq!(RadixCiphertext::from_blocks(Vec::new()).err(), Some(MalformedInteger::NoDigits));
    let one = cks.encrypt_radix(5, 1).unwrap();
    assert!(RadixCiphertext::from_blocks(one.to_blocks()).is_ok());
}

#[test]
fn zero_plus_one_is_one_in_four_digits_of_base_16() {
    let (cks, sks) = keys(Parameters::message_4_carry_4());
    let mut meter = WorkMeter::new();
    let a = cks.encrypt_radix(0, 4).unwrap();
    let b = cks.encrypt_radix(1, 4).unwrap();
    let sum = sks.add(&a, &b, &mut meter);
    assert_eq!(cks.decrypt_radix(&sum), 1);
    assert_eq!(raw_digits(&cks, &sum), vec![1, 0, 0, 0]);
}

#[test]
fn fifteen_plus_one_carries_into_the_next_digit() {
    let (cks, sks) = keys(Parameters::message_4_carry_4());
    let mut meter = WorkMeter::new();
    let a = cks.encrypt_radix(15, 4).unwrap();
    let b = cks.encrypt_radix(1, 4).unwrap();
    let raw = sks.unchecked_add(&a, &b);
    assert_eq!(raw_digits(&cks, &raw), vec![16, 0, 0, 0]);
    assert_eq!(degrees(&raw), vec![30, 30, 30, 30]);
    let sum = sks.add(&a, &b, &mut meter);
    assert_eq!(raw_digits(&cks, &sum), vec![0, 1, 0, 0]);
    assert_eq!(cks.decrypt_radix(&sum), (15 + 1) % 65536);
    assert_eq!(cks.decrypt_radix(&raw), 16);
}

#[test]
fn addition_wraps_at_the_width() {
    let (cks, sks) = keys(Parameters::message_2_carry_2());
    let mut meter = WorkMeter::new();
    for (x, y) in [(255u64, 1u64), (200, 100), (0, 0), (255, 255), (170, 85), (1, 2)] {
        let a = cks.encrypt_radix(x, 4).unwrap();
        let b = cks.encrypt_radix(y, 4).unwrap();
        let sum = sks.add(&a, &b, &mut meter);
        assert_eq!(cks.decrypt_radix(&sum), (x + y) % 256);
        assert!(degrees(&sum).iter().all(|d| *d <= 3));
    }
}

#[test]
fn checked_add_stops_at_the_degree_budget() {
    let (cks, sks) = keys(Parameters::message_2_carry_2());
    let a = cks.encrypt_radix(27, 3).unwrap();
    let b = cks.encrypt_radix(45, 3).unwrap();
    assert!(sks.is_add_possible(&a, &b));
    let two = sks.checked_add(&a, &b).unwrap();
    assert_eq!(degrees(&two), vec![6, 6, 6]);
    assert_eq!(raw_digits(&cks, &two), vec![3 + 1, 2 + 3, 1 + 2]);
    let three = sks.checked_add(&two, &a).unwrap();
    assert_eq!(degrees(&three), vec![9, 9, 9]);
    assert!(!sks.is_add_possible(&three, &a));
    assert_eq!(sks.checked_add(&three, &a).err(), Some(CheckError::CarryFull));
    assert_eq!(cks.decrypt_radix(&three), (27 + 45 + 27) % 64);
}

#[test]
fn propagation_cleans_and_keeps_the_value() {
    let (cks, sks) = keys(Parameters::message_2_carry_2());
    let a = cks.encrypt_radix(63, 3).unwrap();
    let mut ct = sks.checked_add(&sks.checked_add(&a, &a).unwrap(), &a).unwrap();
    assert_eq!(raw_digits(&cks, &ct), vec![9, 9, 9]);
    let mut meter = WorkMeter::new();
    sks.full_propagate(&mut ct, &mut meter);
    assert_eq!(meter.bootstraps, 5);
    assert_eq!(degrees(&ct), vec![3, 3, 3]);
    assert_eq!(raw_digits(&cks, &ct), vec![1, 3, 3]);
    assert_eq!(cks.decrypt_radix(&ct), (3 * 63) % 64);
}

#[test]
fn propagating_a_clean_integer_changes_nothing() {
    let (cks, sks) = keys(Parameters::message_2_carry_2());
    let mut ct = cks.encrypt_radix(0x6C, 4).unwrap();
    let mut meter = WorkMeter::new();
    sks.full_propagate(&mut ct, &mut meter);
    assert_eq!(meter.bootstraps, 0);
    assert_eq!(raw_digits(&cks, &ct), vec![0, 3, 2, 1]);
    assert_eq!(degrees(&ct), vec![3, 3, 3, 3]);
    let b = cks.encrypt_radix(1, 4).unwrap();
    let mut sum = sks.add(&ct, &b, &mut meter);
    let counted = meter.bootstraps;
    let digits = raw_digits(&cks, &sum);
    let degs = degrees(&sum);
    sks.full_propagate(&mut sum, &mut meter);
    assert_eq!(meter.bootstraps, counted);
    assert_eq!(raw_digits(&cks, &sum), digits);
    assert_eq!(degrees(&sum), degs);
}

#[test]
fn add_propagates_operands_that_do_not_fit() {
    let (cks, sks) = keys(Parameters::message_2_carry_2());
    let a = cks.encrypt_radix(63, 3).unwrap();
    let three = sks.checked_add(&sks.checked_add(&a, &a).unwrap(), &a).unwrap();
    let mut meter = WorkMeter::new();
    let sum = sks.add(&three, &three, &mut meter);
    assert_eq!(cks.decrypt_radix(&sum), (6 * 63) % 64);
    assert_eq!(meter.bootstraps, 5 + 5 + 5);
    let mut meter = WorkMeter::new();
    let sum = sks.add(&a, &a, &mut meter);
    assert_eq!(cks.decrypt_radix(&sum), (2 * 63) % 64);
    assert_eq!(meter.bootstraps, 5);
}

#[test]
fn the_meter_stops_at_its_end() {
    let (cks, sks) = keys(Parameters::message_2_carry_2());
    let a = cks.encrypt_radix(63, 3).unwrap();
    let mut meter = WorkMeter { bootstraps: u64::MAX - 2 };
    let sum = sks.add(&a, &a, &mut meter);
    assert_eq!(meter.bootstraps, u64::MAX);
    assert_eq!(cks.decrypt_radix(&sum), 62);
}

#[test]
fn digit_level_operations() {
    let cks = fhe_integer::shortint::ClientKey::new(Parameters::message_2_carry_2()).unwrap();
    let sks = fhe_integer::shortint::ServerKey::new(&cks);
    let a = cks.encrypt(7);
    assert_eq!(cks.decrypt(&a), 3);
    assert_eq!(a.degree(), Degree(3));
    let b = sks.unchecked_add(&a, &a);
    assert_eq!(cks.decrypt_message_and_carry(&b), 6);
    assert_eq!(cks.decrypt(&b), 2);
    assert_eq!(b.degree(), Degree(6));
    let c = sks.unchecked_add(&b, &b);
    let d = sks.unchecked_add(&c, &c);
    assert_eq!(d.degree(), Degree(24));
    assert_eq!(cks.decrypt_message_and_carry(&d), 24 % 16);
    assert!(sks.is_add_possible(&b, &b));
    assert!(!sks.is_add_possible(&c, &b));
    assert_eq!(sks.checked_add(&c, &b).err(), Some(CheckError::CarryFull));
    let mut meter = WorkMeter::new();
    let squares: Vec<u64> = (0..16u64).map(|x| (x * x) % 16).collect();
    assert!(sks.generate_lookup_table(squares.clone(), Degree(8)).is_none());
    assert!(sks.generate_lookup_table(vec![0; 15], Degree(0)).is_none());
    assert!(sks.generate_lookup_table(vec![0; 16], Degree(16)).is_none());
    let table = sks.generate_lookup_table(squares, Degree(9)).unwrap();
    let e = sks.apply_lookup_table(&b, &table, &mut meter);
    assert_eq!(cks.decrypt_message_and_carry(&e), 36 % 16);
    assert_eq!(e.degree(), Degree(9));
    assert_eq!(meter.bootstraps, 1);
}

#[test]
fn widths_that_fit_in_64_bits() {
    let (cks, _) = keys(Parameters::message_2_carry_2());
    assert!(cks.radix_fits(0));
    assert!(cks.radix_fits(1));
    assert!(cks.radix_fits(31));
    assert!(cks.radix_fits(32));
    assert!(!cks.radix_fits(33));
    assert!(!cks.radix_fits(1000));
    let (cks, _) = keys(Parameters::new(3, 3).unwrap());
    assert!(cks.radix_fits(40));
    assert!(!cks.radix_fits(41));
}

#[test]
fn a_width_of_exactly_64_bits_decrypts() {
    let (cks, sks) = keys(Parameters::message_2_carry_2());
    let ct = cks.encrypt_radix(u64::MAX, 32).unwrap();
    assert_eq!(cks.decrypt_radix(&ct), u64::MAX);
    let one = cks.encrypt_radix(1, 32).unwrap();
    let mut meter = WorkMeter::new();
    assert_eq!(cks.decrypt_radix(&sks.add(&ct, &one, &mut meter)), 0);
    assert_eq!(cks.decrypt_radix(&sks.unchecked_add(&ct, &one)), 0);
    assert_eq!(cks.decrypt_radix(&sks.unchecked_add(&ct, &ct)), u64::MAX - 1);
    let (cks, sks) = keys(Parameters::message_4_carry_4());
    assert!(cks.radix_fits(16));
    assert!(!cks.radix_fits(17));
    let a = cks.encrypt_radix(0xFEDC_BA98_7654_3210, 16).unwrap();
    assert_eq!(cks.decrypt_radix(&a), 0xFEDC_BA98_7654_3210);
    let sum = sks.add_parallelized(&a, &a, &mut meter);
    assert_eq!(cks.decrypt_radix(&sum), 0xFEDC_BA98_7654_3210u64.wrapping_mul(2));
}
