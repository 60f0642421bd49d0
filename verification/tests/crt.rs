use fhe_integer::crt::{check_moduli, is_coprime};
use fhe_integer::crt_radix::modular_inverse;
use fhe_integer::shortint::{CheckError, Parameters, WorkMeter};
use fhe_integer::{ClientKey, CrtCiphertext, MalformedInteger, ServerKey};

fn keys(p: Parameters) -> (ClientKey, ServerKey) {
    let cks = ClientKey::new(p).unwrap();
    let sks = ServerKey::new(&cks);
    (cks, sks)
}

fn residues(cks: &ClientKey, ct: &CrtCiphertext) -> Vec<u64> {
    ct.blocks().iter().map(|b| cks.as_shortint().decrypt_message_and_carry(b)).collect()
}

fn degrees(ct: &CrtCiphertext) -> Vec<u64> {
    ct.blocks().iter().map(|b| b.degree().0).collect()
}

#[test]
fn coprimality_by_trial() {
    assert!(is_coprime(3, 5));
    assert!(is_coprime(1, 0));
    assert!(is_coprime(1, 7));
    assert!(is_coprime(8, 9));
    assert!(is_coprime(16, 15));
    assert!(!is_coprime(6, 9));
    assert!(!is_coprime(4, 4));
    assert!(!is_coprime(5, 0));
    assert!(!is_coprime(7, 14));
    assert!(!is_coprime(14, 7));
    assert!(is_coprime(0, 1));
    assert!(is_coprime(1, 1));
    assert!(!is_coprime(0, 0));
    assert!(!is_coprime(0, 2));
    assert!(!is_coprime(0, 5));
    assert!(is_coprime(u64::MAX, 2));
    assert!(is_coprime(4, u64::MAX));
    assert!(!is_coprime(u64::MAX, 3));
    assert!(!is_coprime(6, u64::MAX - 1));
}

#[test]
fn moduli_are_checked() {
    let p = Parameters::message_4_carry_4();
    assert_eq!(check_moduli(&vec![], p), Err(MalformedInteger::NoDigits));
    assert_eq!(check_moduli(&vec![3, 1], p), Err(MalformedInteger::ModulusOutOfRange));
    assert_eq!(check_moduli(&vec![3, 17], p), Err(MalformedInteger::ModulusOutOfRange));
    assert_eq!(check_moduli(&vec![6, 9, 17], p), Err(MalformedInteger::ModulusOutOfRange));
    assert_eq!(check_moduli(&vec![3, 5, 9], p), Err(MalformedInteger::ModuliNotCoprime));
    assert_eq!(check_moduli(&vec![7, 7], p), Err(MalformedInteger::ModuliNotCoprime));
    assert_eq!(check_moduli(&vec![3, 5, 7, 16], p), Ok(()));
    assert_eq!(check_moduli(&vec![16], p), Ok(()));
    let (cks, _) = keys(p);
    assert_eq!(cks.encrypt_crt(5, vec![]).err(), Some(MalformedInteger::NoDigits));
    assert_eq!(cks.encrypt_crt(5, vec![0, 4, 6]).err(), Some(MalformedInteger::ModulusOutOfRange));
    assert_eq!(cks.encrypt_crt(5, vec![2, 4]).err(), Some(MalformedInteger::ModuliNotCoprime));
    let ct = cks.encrypt_crt(5, vec![3, 4]).unwrap();
    assert!(CrtCiphertext::from_blocks(ct.blocks().clone(), vec![3, 4], p).is_ok());
    assert_eq!(
        CrtCiphertext::from_blocks(ct.blocks().clone(), vec![3, 4, 5], p).err(),
        Some(MalformedInteger::ResidueCountMismatch)
    );
    assert_eq!(
        CrtCiphertext::from_blocks(ct.blocks().clone(), vec![5], p).err(),
        Some(MalformedInteger::ResidueCountMismatch)
    );
    assert_eq!(
        CrtCiphertext::from_blocks(ct.blocks().clone(), vec![3, 6], p).err(),
        Some(MalformedInteger::ModuliNotCoprime)
    );
    assert_eq!(
        CrtCiphertext::from_blocks(ct.blocks().clone(), vec![3, 17, 6], p).err(),
        Some(MalformedInteger::ModulusOutOfRange)
    );
    assert_eq!(
        CrtCiphertext::from_blocks(ct.blocks().clone(), vec![], p).err(),
        Some(MalformedInteger::NoDigits)
    );
}

#[test]
fn encrypt_then_decrypt_is_the_value_under_the_product() {
    let (cks, _) = keys(Parameters::message_4_carry_4());
    let moduli = vec![3u64, 5, 7, 16];
    for x in 0..1680u64 {
        let ct = cks.encrypt_crt(x, moduli.clone()).unwrap();
        assert_eq!(residues(&cks, &ct), vec![x % 3, x % 5, x % 7, x % 16]);
        assert_eq!(cks.decrypt_crt(&ct), x);
    }
    let ct = cks.encrypt_crt(1680 + 13, moduli.clone()).unwrap();
    assert_eq!(cks.decrypt_crt(&ct), 13);
    assert_eq!(degrees(&ct), vec![2, 4, 6, 15]);
}

#[test]
fn residues_add_without_carries() {
    let (cks, sks) = keys(Parameters::message_4_carry_4());
    let moduli = vec![3u64, 5, 7, 16];
    let a = cks.encrypt_crt(1000, moduli.clone()).unwrap();
    let b = cks.encrypt_crt(900, moduli.clone()).unwrap();
    assert!(sks.is_crt_add_possible(&a, &b));
    let sum = sks.unchecked_crt_add(&a, &b);
    assert_eq!(residues(&cks, &sum), vec![1 + 0, 0 + 0, 6 + 4, 8 + 4]);
    assert_eq!(degrees(&sum), vec![4, 8, 12, 30]);
    assert_eq!(cks.decrypt_crt(&sum), 1900 % 1680);
    let mut acc = sks.checked_crt_add(&a, &b).unwrap();
    let mut expected = 1900u64;
    let mut refused = false;
    for _ in 0..20 {
        match sks.checked_crt_add(&acc, &a) {
            Ok(next) => {
                acc = next;
                expected += 1000;
                assert_eq!(cks.decrypt_crt(&acc), expected % 1680);
                assert!(degrees(&acc).iter().all(|d| *d <= 239));
            }
            Err(e) => {
                assert_eq!(e, CheckError::CarryFull);
                refused = true;
                break;
            }
        }
    }
    assert!(refused);
    let mut meter = WorkMeter::new();
    let sum = sks.crt_add(&acc, &a, &mut meter);
    assert_eq!(meter.bootstraps, 8);
    assert_eq!(cks.decrypt_crt(&sum), (expected + 1000) % 1680);
    let mut meter = WorkMeter::new();
    let sum = sks.crt_add(&a, &b, &mut meter);
    assert_eq!(meter.bootstraps, 0);
    assert_eq!(cks.decrypt_crt(&sum), 1900 % 1680);
}

#[test]
fn residues_are_reduced_by_one_lookup_each() {
    let (cks, sks) = keys(Parameters::message_4_carry_4());
    let moduli = vec![3u64, 5, 7, 16];
    let a = cks.encrypt_crt(1679, moduli.clone()).unwrap();
    let mut sum = sks.unchecked_crt_add(&a, &a);
    assert_eq!(residues(&cks, &sum), vec![4, 8, 12, 30]);
    let mut meter = WorkMeter::new();
    sks.crt_reduce(&mut sum, &mut meter);
    assert_eq!(meter.bootstraps, 4);
    assert_eq!(residues(&cks, &sum), vec![1, 3, 5, 14]);
    assert_eq!(degrees(&sum), vec![2, 4, 6, 15]);
    assert!(sks.is_crt_reduced(&sum));
    assert_eq!(cks.decrypt_crt(&sum), 1678);
}

#[test]
fn residues_multiply_without_carries() {
    let (cks, sks) = keys(Parameters::message_4_carry_4());
    let moduli = vec![3u64, 5, 7, 16];
    for (x, y) in [(0u64, 5u64), (41, 40), (1679, 1679), (123, 456), (7, 240)] {
        let a = cks.encrypt_crt(x, moduli.clone()).unwrap();
        let b = cks.encrypt_crt(y, moduli.clone()).unwrap();
        let mut meter = WorkMeter::new();
        let r = sks.crt_mul(&a, &b, &mut meter);
        assert_eq!(meter.bootstraps, 4);
        assert_eq!(cks.decrypt_crt(&r), (x * y) % 1680);
        let sum = sks.unchecked_crt_add(&a, &b);
        let mut meter = WorkMeter::new();
        let r = sks.crt_mul(&sum, &b, &mut meter);
        assert_eq!(meter.bootstraps, 8);
        assert_eq!(cks.decrypt_crt(&r), ((x + y) * y) % 1680);
        let r = sks.unchecked_crt_mul(&a, &b, &mut meter);
        assert_eq!(cks.decrypt_crt(&r), (x * y) % 1680);
    }
}

#[test]
fn residues_subtract_without_carries() {
    let (cks, sks) = keys(Parameters::message_4_carry_4());
    let moduli = vec![3u64, 5, 7, 16];
    for (x, y) in [(0u64, 5u64), (41, 40), (1679, 1679), (123, 456), (700, 240), (5, 0)] {
        let a = cks.encrypt_crt(x, moduli.clone()).unwrap();
        let b = cks.encrypt_crt(y, moduli.clone()).unwrap();
        let mut meter = WorkMeter::new();
        let r = sks.crt_sub(&a, &b, &mut meter);
        assert_eq!(meter.bootstraps, 4);
        assert_eq!(cks.decrypt_crt(&r), (x + 1680 - y) % 1680);
    }
    let (cks, sks) = keys(Parameters::message_2_carry_2());
    let a = cks.encrypt_crt(10, vec![3, 4]).unwrap();
    let b = cks.encrypt_crt(7, vec![3, 4]).unwrap();
    let big = sks.unchecked_crt_add(&sks.unchecked_crt_add(&a, &a), &a);
    assert_eq!(degrees(&big), vec![6, 9]);
    let mut meter = WorkMeter::new();
    let r = sks.crt_sub(&big, &b, &mut meter);
    assert_eq!(meter.bootstraps, 4);
    assert_eq!(cks.decrypt_crt(&r), (30 - 7) % 12);
}

#[test]
fn residues_convert_to_radix_digits() {
    let (cks, sks) = keys(Parameters::message_4_carry_4());
    let moduli = vec![3u64, 5, 7, 16];
    for x in (0..1680u64).step_by(7).chain([1679u64, 1678, 1, 2]) {
        let ct = cks.encrypt_crt(x, moduli.clone()).unwrap();
        let mut meter = WorkMeter::new();
        let radix = sks.crt_to_radix(&ct, 3, &mut meter).unwrap();
        assert_eq!(cks.decrypt_radix(&radix), x);
        assert_eq!(radix.len(), 3);
        assert!(radix.blocks().iter().all(|b| b.degree().0 == 15));
        // 6 lookups for the mixed-radix digits, 4 rows of 3 digits, 3 lookaheads of 2 + 1 + 2 + 3
        assert_eq!(meter.bootstraps, 6 + 4 * 3 + 3 * 8);
    }
}

#[test]
fn conversion_keeps_the_lowest_digits_where_the_width_is_short() {
    let (cks, sks) = keys(Parameters::message_4_carry_4());
    let ct = cks.encrypt_crt(1234, vec![3, 5, 7, 16]).unwrap();
    let mut meter = WorkMeter::new();
    let radix = sks.crt_to_radix(&ct, 2, &mut meter).unwrap();
    assert_eq!(cks.decrypt_radix(&radix), 1234 % 256);
    let radix = sks.crt_to_radix(&ct, 1, &mut meter).unwrap();
    assert_eq!(cks.decrypt_radix(&radix), 1234 % 16);
    let counted = meter.bootstraps;
    assert_eq!(sks.crt_to_radix(&ct, 0, &mut meter).err(), Some(MalformedInteger::NoDigits));
    assert_eq!(meter.bootstraps, counted);
}

#[test]
fn conversion_after_arithmetic_allows_comparison() {
    let (cks, sks) = keys(Parameters::message_2_carry_2());
    let moduli = vec![3u64, 4];
    let a = cks.encrypt_crt(7, moduli.clone()).unwrap();
    let b = cks.encrypt_crt(9, moduli.clone()).unwrap();
    let mut meter = WorkMeter::new();
    let sum = sks.crt_add(&a, &b, &mut meter);
    let product = sks.crt_mul(&a, &b, &mut meter);
    let s = sks.crt_to_radix(&sum, 2, &mut meter).unwrap();
    let t = sks.crt_to_radix(&product, 2, &mut meter).unwrap();
    assert_eq!(cks.decrypt_radix(&s), 16 % 12);
    assert_eq!(cks.decrypt_radix(&t), 63 % 12);
    let order = sks.compare(&s, &t, &mut meter);
    assert_eq!(cks.decrypt_comparison(&order), fhe_integer::Comparison::Greater);
    let single = cks.encrypt_crt(3, vec![4]).unwrap();
    let mut meter = WorkMeter::new();
    let r = sks.crt_to_radix(&single, 2, &mut meter).unwrap();
    assert_eq!(cks.decrypt_radix(&r), 3);
    assert_eq!(meter.bootstraps, 2);
}

#[test]
fn inverses_by_trial() {
    assert_eq!(modular_inverse(3, 7), 5);
    assert_eq!(modular_inverse(1, 2), 1);
    assert_eq!(modular_inverse(16, 5), 1);
    assert_eq!(modular_inverse(5, 16), 13);
    assert_eq!(modular_inverse(15, 16), 15);
    assert_eq!(modular_inverse(0, 1), 0);
    assert_eq!(modular_inverse(7, 1), 0);
    assert_eq!(modular_inverse(u64::MAX, 2), 1);
    assert_eq!(modular_inverse(u64::MAX, 4), 3);
    assert_eq!(modular_inverse(1 << 40, 9), 4);
}

#[test]
fn products_that_fit_in_64_bits() {
    use_moduli_fit(&[3, 5, 7, 16], true);
    use_moduli_fit(&[2], true);
    use_moduli_fit(&[u64::MAX], true);
    use_moduli_fit(&[u64::MAX, 1, 1], true);
    use_moduli_fit(&[u64::MAX, 2], false);
    use_moduli_fit(&[1 << 32, 1 << 31], true);
    use_moduli_fit(&[1 << 32, 1 << 32], false);
    use_moduli_fit(&[1 << 32, 1 << 32, 3], false);
    use_moduli_fit(&[], true);
    use_moduli_fit(&[0], true);
    use_moduli_fit(&[1 << 32, 1 << 32, 3, 0], true);
    use_moduli_fit(&[0, u64::MAX, u64::MAX], true);
}

fn use_moduli_fit(moduli: &[u64], expected: bool) {
    assert_eq!(fhe_integer::crt::moduli_fit(&moduli.to_vec()), expected);
}

fn depths(ct: &CrtCiphertext) -> Vec<u64> {
    ct.blocks().iter().map(|b| b.depth()).collect()
}

#[test]
fn residue_operations_are_one_round_deep() {
    let (cks, sks) = keys(Parameters::message_4_carry_4());
    let moduli = vec![3u64, 5, 7, 16];
    let a = cks.encrypt_crt(1000, moduli.clone()).unwrap();
    let b = cks.encrypt_crt(900, moduli.clone()).unwrap();
    assert_eq!(depths(&a), vec![0; 4]);
    let mut meter = WorkMeter::new();
    let sum = sks.crt_add(&a, &b, &mut meter);
    assert_eq!(depths(&sum), vec![0; 4]);
    let product = sks.crt_mul(&a, &b, &mut meter);
    assert_eq!(depths(&product), vec![1; 4]);
    let both = sks.crt_mul(&sum, &product, &mut meter);
    assert_eq!(depths(&both), vec![2; 4]);
    let difference = sks.crt_sub(&both, &sum, &mut meter);
    assert_eq!(depths(&difference), vec![2; 4]);
    let mut reduced = sum.duplicate();
    sks.crt_reduce(&mut reduced, &mut meter);
    assert_eq!(depths(&reduced), vec![1; 4]);
}

#[test]
fn conversion_depth_stays_under_its_bound() {
    let (cks, sks) = keys(Parameters::message_4_carry_4());
    let ct = cks.encrypt_crt(1234, vec![3, 5, 7, 16]).unwrap();
    let mut meter = WorkMeter::new();
    let radix = sks.crt_to_radix(&ct, 3, &mut meter).unwrap();
    let deepest = radix.blocks().iter().map(|b| b.depth()).max().unwrap();
    // four residues, and three lookaheads of 3 + 1 rounds
    assert!(deepest <= 4 + 3 * 4);
    assert!(deepest >= 4);
}
