use fhe_integer::shortint::{Parameters, WorkMeter};
use fhe_integer::{ClientKey, Comparison, RadixCiphertext, ServerKey};

fn keys(p: Parameters) -> (ClientKey, ServerKey) {
    let cks = ClientKey::new(p).unwrap();
    let sks = ServerKey::new(&cks);
    (cks, sks)
}

fn degrees(ct: &RadixCiphertext) -> Vec<u64> {
    ct.blocks().iter().map(|b| b.degree().0).collect()
}

fn raw_digits(cks: &ClientKey, ct: &RadixCiphertext) -> Vec<u64> {
    ct.blocks().iter().map(|b| cks.as_shortint().decrypt_message_and_carry(b)).collect()
}

fn samples() -> Vec<u64> {
    vec![0, 1, 2, 3, 4, 15, 16, 17, 63, 64, 100, 127, 128, 129, 200, 254, 255]
}

#[test]
fn both_strategies_give_the_same_digits() {
    for p in [Parameters::message_2_carry_2(), Parameters::new(3, 5).unwrap(), Parameters::new(2, 4).unwrap()] {
        let (cks, sks) = keys(p);
        for x in samples() {
            for y in samples() {
                let a = cks.encrypt_radix(x, 5).unwrap();
                let b = cks.encrypt_radix(y, 5).unwrap();
                let raw = sks.unchecked_add(&a, &b);
                let mut sequential = raw.duplicate();
                let mut parallel = raw.duplicate();
                let mut m1 = WorkMeter::new();
                let mut m2 = WorkMeter::new();
                sks.full_propagate(&mut sequential, &mut m1);
                sks.full_propagate_parallelized(&mut parallel, &mut m2);
                assert_eq!(raw_digits(&cks, &sequential), raw_digits(&cks, &parallel));
                assert_eq!(cks.decrypt_radix(&sequential), cks.decrypt_radix(&parallel));
                assert_eq!(cks.decrypt_radix(&parallel), cks.decrypt_radix(&raw));
            }
        }
    }
}

#[test]
fn lookahead_counts_by_the_number_of_digits() {
    let (cks, sks) = keys(Parameters::message_2_carry_2());
    // n = 5: 4 signals, rounds of 3 + 2 combinations, 4 carry bits, 5 digits
    for (x, y) in [(0u64, 0u64), (1023, 1), (341, 682), (1023, 1023)] {
        let a = cks.encrypt_radix(x, 5).unwrap();
        let b = cks.encrypt_radix(y, 5).unwrap();
        let mut meter = WorkMeter::new();
        let sum = sks.add_parallelized(&a, &b, &mut meter);
        assert_eq!(meter.bootstraps, 4 + (3 + 2) + 4 + 5);
        assert_eq!(cks.decrypt_radix(&sum), (x + y) % 1024);
        assert_eq!(degrees(&sum), vec![3, 3, 3, 3, 3]);
    }
    let a = cks.encrypt_radix(3, 1).unwrap();
    let mut meter = WorkMeter::new();
    let sum = sks.add_parallelized(&a, &a, &mut meter);
    assert_eq!(meter.bootstraps, 1);
    assert_eq!(cks.decrypt_radix(&sum), 2);
}

#[test]
fn parallel_propagation_splits_large_carries_first() {
    let (cks, sks) = keys(Parameters::message_2_carry_2());
    let a = cks.encrypt_radix(63, 3).unwrap();
    let three = sks.checked_add(&sks.checked_add(&a, &a).unwrap(), &a).unwrap();
    let mut ct = three.duplicate();
    let mut meter = WorkMeter::new();
    sks.full_propagate_parallelized(&mut ct, &mut meter);
    // one splitting round of 5 lookups, and a lookahead of 2 + 1 + 2 + 3
    assert_eq!(meter.bootstraps, 5 + 8);
    assert_eq!(cks.decrypt_radix(&ct), (3 * 63) % 64);
    assert_eq!(degrees(&ct), vec![3, 3, 3]);
    let mut meter = WorkMeter::new();
    sks.full_propagate_parallelized(&mut ct, &mut meter);
    assert_eq!(meter.bootstraps, 0);
    let mut meter = WorkMeter::new();
    let sum = sks.add_parallelized(&three, &three, &mut meter);
    assert_eq!(meter.bootstraps, 13 + 13 + 8);
    assert_eq!(cks.decrypt_radix(&sum), (6 * 63) % 64);
}

#[test]
fn parallel_propagation_with_much_room_for_carries() {
    let p = Parameters::new(2, 16).unwrap();
    let (cks, sks) = keys(p);
    for x in [0u64, 1, 37, 255, 170, 85, 254] {
        let a = cks.encrypt_radix(x, 8).unwrap();
        let mut acc = a.duplicate();
        for _ in 0..14 {
            acc = sks.checked_add(&acc, &a).unwrap();
        }
        assert_eq!(degrees(&acc), vec![15; 8]);
        let mut sequential = acc.duplicate();
        let mut parallel = acc.duplicate();
        let mut m1 = WorkMeter::new();
        let mut m2 = WorkMeter::new();
        sks.full_propagate(&mut sequential, &mut m1);
        sks.full_propagate_parallelized(&mut parallel, &mut m2);
        assert_eq!(cks.decrypt_radix(&sequential), (15 * x) % 256);
        assert_eq!(raw_digits(&cks, &sequential), raw_digits(&cks, &parallel));
        assert_eq!(m1.bootstraps, 15);
        // four splitting rounds of 15 lookups, and a lookahead of 7 + (6 + 5 + 3) + 7 + 8
        assert_eq!(m2.bootstraps, 4 * 15 + 36);
    }
}

#[test]
fn parallel_propagation_of_digits_beyond_the_budget() {
    let (cks, sks) = keys(Parameters::message_2_carry_2());
    let a = cks.encrypt_radix(0b01_01_01, 3).unwrap();
    let digit_key = sks.as_shortint();
    let blocks = a
        .blocks()
        .iter()
        .map(|b| {
            let two = digit_key.unchecked_add(b, b);
            digit_key.unchecked_add(&two, &two)
        })
        .collect();
    let four = RadixCiphertext::from_blocks(blocks).unwrap();
    assert_eq!(degrees(&four), vec![12, 12, 12]);
    assert_eq!(raw_digits(&cks, &four), vec![4, 4, 4]);
    let mut ct = four.duplicate();
    let mut meter = WorkMeter::new();
    sks.full_propagate_parallelized(&mut ct, &mut meter);
    assert_eq!(cks.decrypt_radix(&ct), (4 * 0b01_01_01) % 64);
}

#[test]
fn comparison_matches_the_order_of_the_plaintexts() {
    for p in [Parameters::message_2_carry_2(), Parameters::new(2, 4).unwrap(), Parameters::new(3, 3).unwrap()] {
        let (cks, sks) = keys(p);
        let modulus = p.message_modulus.0.pow(6);
        for x in samples() {
            for y in samples() {
                let a = cks.encrypt_radix(x, 6).unwrap();
                let b = cks.encrypt_radix(y, 6).unwrap();
                let mut meter = WorkMeter::new();
                let r = sks.compare(&a, &b, &mut meter);
                let (x, y) = (x % modulus, y % modulus);
                let expected = if x < y {
                    Comparison::Less
                } else if x == y {
                    Comparison::Equal
                } else {
                    Comparison::Greater
                };
                assert_eq!(cks.decrypt_comparison(&r), expected);
                assert_eq!(meter.bootstraps, 11);
                let mut meter = WorkMeter::new();
                let r = sks.unchecked_compare(&a, &b, &mut meter);
                assert_eq!(cks.decrypt_comparison(&r), expected);
                assert_eq!(meter.bootstraps, 11);
            }
        }
    }
}

#[test]
fn comparison_does_the_same_work_wherever_the_integers_differ() {
    let (cks, sks) = keys(Parameters::message_4_carry_4());
    let base = cks.encrypt_radix(0x1234, 4).unwrap();
    for other in [0x1234u64, 0x1235, 0x1224, 0x1334, 0x2234, 0x0000, 0xFFFF] {
        let b = cks.encrypt_radix(other, 4).unwrap();
        let mut meter = WorkMeter::new();
        sks.compare(&base, &b, &mut meter);
        assert_eq!(meter.bootstraps, 7);
    }
}

#[test]
fn comparison_of_operands_with_carries() {
    let (cks, sks) = keys(Parameters::message_2_carry_2());
    let a = cks.encrypt_radix(100, 4).unwrap();
    let b = cks.encrypt_radix(60, 4).unwrap();
    let c = cks.encrypt_radix(41, 4).unwrap();
    let sum = sks.unchecked_add(&b, &c);
    let mut meter = WorkMeter::new();
    assert_eq!(cks.decrypt_comparison(&sks.compare(&a, &sum, &mut meter)), Comparison::Less);
    assert_eq!(cks.decrypt_comparison(&sks.compare(&sum, &a, &mut meter)), Comparison::Greater);
    let d = cks.encrypt_radix(40, 4).unwrap();
    let sum = sks.unchecked_add(&b, &d);
    assert_eq!(cks.decrypt_comparison(&sks.compare(&a, &sum, &mut meter)), Comparison::Equal);
}

#[test]
fn multiplication_is_the_product_modulo_the_width() {
    for p in [Parameters::message_2_carry_2(), Parameters::new(2, 4).unwrap(), Parameters::new(3, 4).unwrap()] {
        let (cks, sks) = keys(p);
        let modulus = p.message_modulus.0.pow(4);
        for x in samples() {
            for y in samples() {
                let a = cks.encrypt_radix(x, 4).unwrap();
                let b = cks.encrypt_radix(y, 4).unwrap();
                let mut meter = WorkMeter::new();
                let r = sks.mul(&a, &b, &mut meter);
                assert_eq!(cks.decrypt_radix(&r), ((x % modulus) * (y % modulus)) % modulus);
                assert!(degrees(&r).iter().all(|d| *d < p.message_modulus.0));
            }
        }
    }
}

#[test]
fn multiplication_counts_by_the_number_of_digits() {
    let (cks, sks) = keys(Parameters::message_2_carry_2());
    let mut counts = Vec::new();
    for (x, y) in [(0u64, 0u64), (255, 255), (1, 1), (171, 3)] {
        let a = cks.encrypt_radix(x, 4).unwrap();
        let b = cks.encrypt_radix(y, 4).unwrap();
        let mut meter = WorkMeter::new();
        let r = sks.unchecked_mul(&a, &b, &mut meter);
        assert_eq!(cks.decrypt_radix(&r), (x * y) % 256);
        counts.push(meter.bootstraps);
    }
    // four rows of 7 product digits, and four propagations of 5 lookups
    assert_eq!(counts, vec![4 * 7 + 4 * 5; 4]);
}

#[test]
fn multiplication_in_sixteen_bits() {
    let (cks, sks) = keys(Parameters::message_4_carry_4());
    let mut meter = WorkMeter::new();
    for (x, y) in [(0xFFFFu64, 0xFFFFu64), (0x1234, 0x0056), (300, 200), (0x8000, 2)] {
        let a = cks.encrypt_radix(x, 4).unwrap();
        let b = cks.encrypt_radix(y, 4).unwrap();
        let r = sks.mul(&a, &b, &mut meter);
        assert_eq!(cks.decrypt_radix(&r), (x * y) % 65536);
    }
}

#[test]
fn multiplication_of_operands_with_carries() {
    let (cks, sks) = keys(Parameters::message_2_carry_2());
    let a = cks.encrypt_radix(7, 4).unwrap();
    let b = cks.encrypt_radix(9, 4).unwrap();
    let sum = sks.unchecked_add(&a, &b);
    let mut meter = WorkMeter::new();
    let r = sks.mul(&sum, &sum, &mut meter);
    assert_eq!(cks.decrypt_radix(&r), 0);
    let r = sks.mul(&sum, &a, &mut meter);
    assert_eq!(cks.decrypt_radix(&r), 112);
}

#[test]
fn subtraction_is_the_difference_modulo_the_width() {
    for p in [Parameters::message_2_carry_2(), Parameters::new(2, 4).unwrap(), Parameters::new(3, 3).unwrap()] {
        let (cks, sks) = keys(p);
        let modulus = p.message_modulus.0.pow(4);
        for x in samples() {
            for y in samples() {
                let a = cks.encrypt_radix(x, 4).unwrap();
                let b = cks.encrypt_radix(y, 4).unwrap();
                let mut meter = WorkMeter::new();
                let r = sks.sub(&a, &b, &mut meter);
                assert_eq!(cks.decrypt_radix(&r), (x % modulus + modulus - y % modulus) % modulus);
                assert!(degrees(&r).iter().all(|d| *d < p.message_modulus.0));
            }
        }
    }
}

#[test]
fn negation_is_the_twos_complement() {
    let (cks, sks) = keys(Parameters::message_2_carry_2());
    let b = cks.encrypt_radix(0b01_10_00, 3).unwrap();
    let mut meter = WorkMeter::new();
    let n = sks.unchecked_neg(&b, &mut meter);
    assert_eq!(meter.bootstraps, 3);
    assert_eq!(raw_digits(&cks, &n), vec![4, 1, 2]);
    assert_eq!(degrees(&n), vec![4, 3, 3]);
    assert_eq!(cks.decrypt_radix(&n), 64 - 24);
    let zero = cks.encrypt_radix(0, 3).unwrap();
    assert_eq!(cks.decrypt_radix(&sks.unchecked_neg(&zero, &mut meter)), 0);
}

#[test]
fn pairs_are_packed_by_repeated_addition() {
    let (cks, sks) = keys(Parameters::message_2_carry_2());
    let a = cks.encrypt_radix(0b10_11, 2).unwrap();
    let packed = sks.pack_pair(&a.blocks()[1], &a.blocks()[0]);
    assert_eq!(cks.as_shortint().decrypt_message_and_carry(&packed), 2 * 4 + 3);
    assert_eq!(packed.degree().0, 15);
}

fn depths(ct: &RadixCiphertext) -> Vec<u64> {
    ct.blocks().iter().map(|b| b.depth()).collect()
}

#[test]
fn sequential_propagation_is_one_round_deeper_with_every_digit() {
    let (cks, sks) = keys(Parameters::message_2_carry_2());
    let a = cks.encrypt_radix(0xFF, 4).unwrap();
    assert_eq!(depths(&a), vec![0, 0, 0, 0]);
    let mut raw = sks.unchecked_add(&a, &a);
    assert_eq!(depths(&raw), vec![0, 0, 0, 0]);
    let mut meter = WorkMeter::new();
    sks.full_propagate(&mut raw, &mut meter);
    assert_eq!(depths(&raw), vec![1, 2, 3, 4]);
    let a = cks.encrypt_radix(5, 32).unwrap();
    let mut raw = sks.unchecked_add(&a, &a);
    sks.full_propagate(&mut raw, &mut meter);
    assert_eq!(depths(&raw).into_iter().max(), Some(32));
}

#[test]
fn lookahead_is_logarithmically_deep() {
    let (cks, sks) = keys(Parameters::message_2_carry_2());
    let mut meter = WorkMeter::new();
    // bound: 3 rounds and the rounds of the prefix combination of n - 1 signals
    for (n, rounds) in [(1usize, 0u64), (2, 0), (3, 1), (4, 2), (5, 2), (9, 3), (17, 4), (32, 5), (33, 5), (34, 6)] {
        let a = cks.encrypt_radix(u64::MAX, n).unwrap();
        let sum = sks.add_parallelized(&a, &a, &mut meter);
        let deepest = depths(&sum).into_iter().max().unwrap();
        assert!(deepest <= 3 + rounds, "{} digits: depth {}", n, deepest);
        if n >= 2 {
            assert_eq!(deepest, 3 + rounds);
        }
        let sequential = sks.add(&a, &a, &mut meter);
        assert_eq!(depths(&sequential).into_iter().max(), Some(n as u64));
    }
}

#[test]
fn splitting_rounds_add_one_round_each() {
    let p = Parameters::new(2, 16).unwrap();
    let (cks, sks) = keys(p);
    let a = cks.encrypt_radix(255, 8).unwrap();
    let mut acc = a.duplicate();
    for _ in 0..14 {
        acc = sks.checked_add(&acc, &a).unwrap();
    }
    let mut meter = WorkMeter::new();
    sks.full_propagate_parallelized(&mut acc, &mut meter);
    // four splitting rounds, and a lookahead of 3 + 3 rounds over 7 signals
    assert_eq!(depths(&acc).into_iter().max(), Some(4 + 6));
}

#[test]
fn comparison_is_as_deep_as_its_tree() {
    let (cks, sks) = keys(Parameters::message_2_carry_2());
    let mut meter = WorkMeter::new();
    for (n, rounds) in [(1usize, 0u64), (2, 1), (3, 2), (4, 2), (5, 3), (8, 3), (9, 4), (16, 4), (17, 5)] {
        let a = cks.encrypt_radix(12345, n).unwrap();
        let b = cks.encrypt_radix(54321, n).unwrap();
        let r = sks.compare(&a, &b, &mut meter);
        assert_eq!(r.depth(), 1 + rounds);
    }
}

#[test]
fn multiplication_waits_for_every_row() {
    let (cks, sks) = keys(Parameters::message_2_carry_2());
    let mut meter = WorkMeter::new();
    for n in [1usize, 2, 3, 5] {
        let a = cks.encrypt_radix(u64::MAX, n).unwrap();
        let r = sks.unchecked_mul(&a, &a, &mut meter);
        let deepest = depths(&r).into_iter().max().unwrap();
        // one round for the products, and n - 1 rounds of propagation for each of the n rows
        let bound = 1 + (n as u64) * (n as u64 - 1);
        assert!(deepest <= bound, "{} digits: depth {} above {}", n, deepest, bound);
        assert!(deepest >= n as u64);
    }
}

#[test]
fn subtraction_is_one_round_deeper_than_its_propagation() {
    let (cks, sks) = keys(Parameters::message_2_carry_2());
    let mut meter = WorkMeter::new();
    let a = cks.encrypt_radix(100, 4).unwrap();
    let b = cks.encrypt_radix(99, 4).unwrap();
    let negated = sks.unchecked_neg(&b, &mut meter);
    assert_eq!(depths(&negated), vec![1, 1, 1, 1]);
    let r = sks.sub(&a, &b, &mut meter);
    assert_eq!(cks.decrypt_radix(&r), 1);
    assert_eq!(depths(&r), vec![2, 3, 4, 5]);
}

#[test]
fn copies_are_propagated_and_the_operands_kept() {
    let (cks, sks) = keys(Parameters::message_2_carry_2());
    let a = cks.encrypt_radix(200, 4).unwrap();
    let b = cks.encrypt_radix(100, 4).unwrap();
    let raw = sks.unchecked_add(&a, &b);
    let mut meter = WorkMeter::new();
    let (x, y) = sks.propagated_copies(&raw, &b, &mut meter);
    assert_eq!(raw_digits(&cks, &raw), vec![0 + 0, 2 + 1, 0 + 2, 3 + 1]);
    assert_eq!(degrees(&raw), vec![6, 6, 6, 6]);
    assert_eq!(cks.decrypt_radix(&x), 300 % 256);
    assert_eq!(degrees(&x), vec![3, 3, 3, 3]);
    assert_eq!(raw_digits(&cks, &y), raw_digits(&cks, &b));
    assert_eq!(degrees(&y), degrees(&b));
    // a lookahead over four digits for the first copy, nothing for the clean one
    assert_eq!(meter.bootstraps, 3 + (2 + 1) + 3 + 4);
}
