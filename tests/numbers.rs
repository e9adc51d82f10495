use similar_numbers::{
    BASE, Selector, Sieve, WriteNum, WriteNumEasy, WriteNumReverse, digit_weights, domain_size,
    generate_number_string, mark_variations_as_similar, numbers_as_string, write_numbers,
};

fn selection(n_digits: usize) -> Vec<usize> {
    let mut sel = Selector::new(n_digits).expect("valid width");
    let mut out = Vec::new();
    while let Some(c) = sel.next_selected() {
        out.push(c);
    }
    out
}

fn digits_of(x: usize, n_digits: usize) -> Vec<usize> {
    let mut d = Vec::new();
    let mut r = x;
    for _ in 0..n_digits {
        d.push(r % 10);
        r /= 10;
    }
    d
}

fn distance(a: usize, b: usize, n_digits: usize) -> usize {
    let da = digits_of(a, n_digits);
    let db = digits_of(b, n_digits);
    da.iter().zip(db.iter()).filter(|(x, y)| x != y).count()
}

#[test]
fn test_two_digits() {
    let mut write_num = WriteNumEasy::default();
    assert_eq!(
        generate_number_string(&mut write_num, 2),
        numbers_as_string(&mut write_num, 2, &vec![00, 11, 22, 33, 44, 55, 66, 77, 88, 99])
    )
}

#[test]
fn test_three_digits() {
    let mut write_num = WriteNumEasy::default();
    let start = numbers_as_string(
        &mut write_num,
        3,
        &vec![000, 011, 022, 033, 044, 055, 066, 077, 088, 099, 101],
    );
    let generated = generate_number_string(&mut write_num, 3);
    assert!(
        generated.starts_with(&start),
        "Unexpected start: {}",
        generated
            .lines()
            .take(11)
            .flat_map(|s| vec![s, "\n"])
            .collect::<String>()
    );
}

#[test]
fn test_write_num_easy() {
    assert_eq!(
        numbers_as_string(&mut WriteNumEasy::default(), 2, &vec![01, 02, 99]),
        "01\n\
         02\n\
         99\n");
}

#[test]
fn test_write_num_reverse() {
    assert_eq!(
        numbers_as_string(&mut WriteNumReverse::new(2), 2, &vec![0, 01, 02, 99]),
        "00\n\
         01\n\
         02\n\
         99\n");
}

#[test]
fn reverse_writer_matches_formatter() {
    let numbers: Vec<usize> = vec![0, 7, 40, 305, 999, 120, 1];
    assert_eq!(
        numbers_as_string(&mut WriteNumReverse::new(3), 3, &numbers),
        numbers_as_string(&mut WriteNumEasy::default(), 3, &numbers)
    );
    assert_eq!(
        numbers_as_string(&mut WriteNumReverse::new(3), 3, &numbers),
        "000\n007\n040\n305\n999\n120\n001\n"
    );
}

#[test]
fn reverse_writer_adapts_to_width() {
    let mut w = WriteNumReverse::new(2);
    let mut out = Vec::new();
    w.write(&mut out, 4, 42);
    w.write(&mut out, 1, 3);
    assert_eq!(out, b"0042\n3\n".to_vec());
}

#[test]
fn two_digit_selection_is_the_repdigits() {
    assert_eq!(selection(2), vec![0, 11, 22, 33, 44, 55, 66, 77, 88, 99]);
}

#[test]
fn one_digit_selection_is_zero_alone() {
    assert_eq!(selection(1), vec![0]);
}

#[test]
fn selection_keeps_distance_two() {
    let s = selection(3);
    for (i, a) in s.iter().enumerate() {
        for b in s.iter().skip(i + 1) {
            assert!(distance(*a, *b, 3) >= 2, "{} and {}", a, b);
        }
    }
}

#[test]
fn selection_is_maximal() {
    let s = selection(3);
    for x in 0..1000usize {
        if !s.contains(&x) {
            assert!(s.iter().any(|c| distance(x, *c, 3) == 1), "{} is not covered", x);
        }
    }
}

#[test]
fn selection_is_ascending() {
    let s = selection(4);
    assert!(s.windows(2).all(|w| w[0] < w[1]));
}

#[test]
fn selection_is_deterministic() {
    let mut a = Vec::new();
    let mut b = Vec::new();
    let ca = write_numbers(&mut WriteNumReverse::new(3), &mut a, 3);
    let cb = write_numbers(&mut WriteNumReverse::new(3), &mut b, 3);
    assert_eq!(a, b);
    assert_eq!(ca, cb);
    assert_eq!(ca, 76);
}

#[test]
fn count_grows_with_width() {
    let counts: Vec<usize> = (1..5).map(|n| selection(n).len()).collect();
    assert_eq!(counts, vec![1, 10, 76, 712]);
    assert!(counts.windows(2).all(|w| w[0] <= w[1]));
    let narrow = selection(2);
    let wide = selection(3);
    assert_eq!(&wide[..narrow.len()], &narrow[..]);
}

#[test]
fn write_numbers_counts_lines() {
    let mut out = Vec::new();
    let count = write_numbers(&mut WriteNumEasy::default(), &mut out, 2);
    assert_eq!(count, 10);
    assert_eq!(out, b"00\n11\n22\n33\n44\n55\n66\n77\n88\n99\n".to_vec());
}

#[test]
fn selector_counts_and_finishes() {
    let mut sel = Selector::new(2).expect("valid width");
    assert_eq!(sel.count(), 0);
    assert_eq!(sel.next_selected(), Some(0));
    assert_eq!(sel.next_selected(), Some(11));
    assert_eq!(sel.count(), 2);
    while sel.next_selected().is_some() {}
    assert_eq!(sel.count(), 10);
    assert_eq!(sel.next_selected(), None);
    assert_eq!(sel.count(), 10);
}

#[test]
fn selector_rejects_bad_widths() {
    assert!(Selector::new(0).is_none());
    assert!(Selector::new(40).is_none());
}

#[test]
fn full_sieve_has_nothing_unexcluded() {
    let mut sieve = Sieve::new(10);
    let mut newly = 0;
    for i in 0..10 {
        if sieve.mark_excluded(i) {
            newly += 1;
        }
    }
    assert_eq!(newly, 10);
    assert!(!sieve.mark_excluded(3));
    assert_eq!(sieve.next_unexcluded_from(0), None);
    assert_eq!(sieve.next_unexcluded_from(9), None);
}

#[test]
fn sieve_scan_skips_excluded_words() {
    let mut sieve = Sieve::new(200);
    for i in 0..150 {
        sieve.mark_excluded(i);
    }
    assert_eq!(sieve.len(), 200);
    assert!(sieve.is_excluded(149));
    assert!(!sieve.is_excluded(150));
    assert_eq!(sieve.next_unexcluded_from(0), Some(150));
    assert_eq!(sieve.next_unexcluded_from(151), Some(151));
    assert_eq!(sieve.next_unexcluded_from(200), None);
}

#[test]
fn domain_size_is_checked_power() {
    assert_eq!(domain_size(0), Some(1));
    assert_eq!(domain_size(3), Some(1000));
    assert_eq!(domain_size(9), Some(1_000_000_000));
    assert_eq!(domain_size(40), None);
    assert_eq!(BASE, 10);
}

#[test]
fn digit_weights_are_powers() {
    assert_eq!(digit_weights(4), vec![1, 10, 100, 1000]);
    assert_eq!(digit_weights(0), Vec::<usize>::new());
}

#[test]
fn variations_of_a_number_are_excluded() {
    let powers = digit_weights(3);
    let mut sieve = Sieve::new(1000);
    mark_variations_as_similar(&powers, &mut sieve, 345);
    let excluded: Vec<usize> = (0..1000).filter(|i| sieve.is_excluded(*i)).collect();
    assert_eq!(excluded.len(), 28);
    for x in &excluded {
        assert!(distance(*x, 345, 3) <= 1);
    }
    assert!(sieve.is_excluded(345));
    assert!(sieve.is_excluded(945));
    assert!(sieve.is_excluded(305));
    assert!(sieve.is_excluded(340));
    assert!(!sieve.is_excluded(355 + 1));
}

#[test]
fn wide_fields_agree() {
    let numbers: Vec<usize> = vec![0, 123456789];
    let easy = numbers_as_string(&mut WriteNumEasy::default(), 25, &numbers);
    assert_eq!(easy, numbers_as_string(&mut WriteNumReverse::new(25), 25, &numbers));
    assert_eq!(easy, format!("{}\n{}123456789\n", "0".repeat(25), "0".repeat(16)));
}
