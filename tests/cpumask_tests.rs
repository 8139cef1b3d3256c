use cpumask::cpumask::{Cpumask, CpumaskError};

fn parse(text: &str, nr_cpus: usize) -> Result<Cpumask, CpumaskError> {
    Cpumask::from_str(&text.to_string(), nr_cpus)
}

fn collect(mask: Cpumask) -> Vec<usize> {
    let mut it = mask.into_iter();
    let mut out = Vec::new();
    while let Some(cpu) = it.next() {
        out.push(cpu);
    }
    out
}

#[test]
fn set_then_test_and_clear_then_test() {
    let mut m = Cpumask::new(70);
    for cpu in [0usize, 1, 63, 64, 69] {
        assert!(!m.test_cpu(cpu));
        assert_eq!(m.set_cpu(cpu), Ok(()));
        assert!(m.test_cpu(cpu));
        assert_eq!(m.clear_cpu(cpu), Ok(()));
        assert!(!m.test_cpu(cpu));
    }
}

#[test]
fn set_leaves_other_cpus_alone() {
    let mut m = Cpumask::new(16);
    m.set_cpu(3).unwrap();
    m.set_cpu(9).unwrap();
    m.clear_cpu(3).unwrap();
    assert_eq!(m.cpus(), vec![9]);
}

#[test]
fn test_beyond_capacity_is_false() {
    let mut m = Cpumask::new(8);
    m.setall();
    assert!(m.test_cpu(7));
    assert!(!m.test_cpu(8));
    assert!(!m.test_cpu(64));
    assert!(!m.test_cpu(usize::MAX));
}

#[test]
fn mutators_beyond_capacity_fail() {
    let mut m = Cpumask::new(8);
    assert_eq!(m.set_cpu(8), Err(CpumaskError::OutOfRange));
    assert_eq!(m.clear_cpu(8), Err(CpumaskError::OutOfRange));
    assert_eq!(m.set_cpu(usize::MAX), Err(CpumaskError::OutOfRange));
    assert_eq!(m.weight(), 0);
}

#[test]
fn weight_after_fill() {
    for n in [1usize, 8, 63, 64, 65, 128, 130] {
        let mut m = Cpumask::new(n);
        m.setall();
        assert_eq!(m.weight(), n);
        assert_eq!(m.len(), n);
        m.clear();
        assert_eq!(m.weight(), 0);
    }
}

#[test]
fn setall_keeps_bits_past_capacity_clear() {
    let mut m = Cpumask::new(70);
    m.setall();
    assert_eq!(m.as_raw_slice(), &[u64::MAX, 0x3f][..]);
    assert_eq!(m.as_raw_bitvec(), &vec![u64::MAX, 0x3f]);
    m.clear();
    assert_eq!(m.as_raw_slice(), &[0u64, 0][..]);
}

#[test]
fn raw_words_hold_cpu_bits() {
    let mut m = Cpumask::new(130);
    m.set_cpu(0).unwrap();
    m.set_cpu(65).unwrap();
    m.set_cpu(129).unwrap();
    assert_eq!(m.as_raw_slice(), &[1u64, 2, 2][..]);
    m.as_raw_bitvec_mut()[0] = 4;
    assert_eq!(m.cpus(), vec![2, 65, 129]);
}

#[test]
fn and_with_itself_is_itself() {
    let m = parse("0xa5c3", 16).unwrap();
    assert_eq!(m.and(&m).unwrap(), m);
}

#[test]
fn xor_with_itself_is_empty() {
    let m = parse("0xa5c3", 20).unwrap();
    let z = m.xor(&m).unwrap();
    assert_eq!(z, Cpumask::new(20));
    assert_eq!(z.weight(), 0);
    assert_eq!(z.len(), 20);
}

#[test]
fn boolean_ops_commute() {
    let a = parse("0x0f0f", 16).unwrap();
    let b = parse("0x00ff", 16).unwrap();
    assert_eq!(a.or(&b).unwrap(), b.or(&a).unwrap());
    assert_eq!(a.and(&b).unwrap(), b.and(&a).unwrap());
    assert_eq!(a.xor(&b).unwrap(), b.xor(&a).unwrap());
}

#[test]
fn boolean_ops_values() {
    let a = parse("0x0f0f", 16).unwrap();
    let b = parse("0x00ff", 16).unwrap();
    assert_eq!(a.or(&b).unwrap(), parse("0x0fff", 16).unwrap());
    assert_eq!(a.and(&b).unwrap(), parse("0x000f", 16).unwrap());
    assert_eq!(a.xor(&b).unwrap(), parse("0x0ff0", 16).unwrap());
    assert_eq!(a, parse("0x0f0f", 16).unwrap());
}

#[test]
fn boolean_ops_reject_capacity_mismatch() {
    let a = Cpumask::new(16);
    let b = Cpumask::new(17);
    assert_eq!(a.or(&b), Err(CpumaskError::CapacityMismatch));
    assert_eq!(a.and(&b), Err(CpumaskError::CapacityMismatch));
    assert_eq!(a.xor(&b), Err(CpumaskError::CapacityMismatch));
}

#[test]
fn parse_ff00ff00_with_capacity_32() {
    let m = parse("0xff00ff00", 32).unwrap();
    let expected: Vec<usize> = (8..16).chain(24..32).collect();
    assert_eq!(m.cpus(), expected);
    assert_eq!(m.weight(), 16);
    assert_eq!(m.to_string(), "32:<11111111000000001111111100000000>");
}

#[test]
fn display_text_is_capacity_and_bits() {
    let mut m = Cpumask::new(4);
    m.set_cpu(0).unwrap();
    m.set_cpu(2).unwrap();
    assert_eq!(m.to_string(), "4:<0101>");
    assert_eq!(Cpumask::new(0).to_string(), "0:<>");
    let mut big = Cpumask::new(100);
    big.set_cpu(99).unwrap();
    let text = big.to_string();
    assert!(text.starts_with("100:<1000"));
    assert_eq!(text.len(), 3 + 2 + 100 + 1);
}

#[test]
fn iteration_yields_set_cpus_in_order() {
    let mut m = Cpumask::new(6);
    m.set_cpu(0).unwrap();
    m.set_cpu(3).unwrap();
    m.set_cpu(5).unwrap();
    assert_eq!(m.cpus(), vec![0, 3, 5]);
    assert_eq!(m.cpus(), vec![0, 3, 5]);
    assert_eq!(collect(m.clone()), vec![0, 3, 5]);
    assert_eq!(collect(m), vec![0, 3, 5]);
}

#[test]
fn iteration_of_empty_mask_yields_nothing() {
    let mut it = Cpumask::new(10).into_iter();
    assert_eq!(it.next(), None);
    assert_eq!(it.next(), None);
}

#[test]
fn invalid_hex_digit_fails() {
    assert_eq!(parse("0x1g", 64), Err(CpumaskError::ParseError));
    assert_eq!(parse("zz", 64), Err(CpumaskError::ParseError));
}

#[test]
fn non_ascii_text_fails() {
    assert_eq!(parse("0x1\u{e9}", 64), Err(CpumaskError::ParseError));
}

#[test]
fn prefix_separators_and_odd_length() {
    let a = parse("0x1_0_1", 16).unwrap();
    assert_eq!(a.cpus(), vec![0, 8]);
    let b = parse("101", 16).unwrap();
    assert_eq!(a, b);
    let c = parse("0xAb", 8).unwrap();
    assert_eq!(c.cpus(), vec![0, 1, 3, 5, 7]);
    assert_eq!(parse("", 4).unwrap(), Cpumask::new(4));
    assert_eq!(parse("0x", 4).unwrap(), Cpumask::new(4));
}

#[test]
fn parsed_cpu_at_capacity_fails() {
    assert_eq!(parse("0x10", 4), Err(CpumaskError::ParseError));
    assert_eq!(parse("0x08", 4).unwrap().cpus(), vec![3]);
    assert_eq!(parse("0x0100", 8), Err(CpumaskError::ParseError));
    assert_eq!(parse("0x0000ff", 8).unwrap().weight(), 8);
}

#[test]
fn display_round_trip_reproduces_bits() {
    let m = parse("0x2d", 7).unwrap();
    let text = m.to_string();
    assert_eq!(text, "7:<0101101>");
    let back = Cpumask::from_display(&text).unwrap();
    assert_eq!(back, m);
}

#[test]
fn malformed_display_text_fails() {
    for text in ["7:<010110>", "07:<0101101>", "7<0101101>", "7:<0101121>", "7:<0101101", "", "0:<>x"] {
        assert_eq!(
            Cpumask::from_display(&text.to_string()),
            Err(CpumaskError::ParseError)
        );
    }
    assert_eq!(Cpumask::from_display(&"0:<>".to_string()).unwrap(), Cpumask::new(0));
}
